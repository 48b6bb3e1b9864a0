//! Static analysis of density function subtrees.
//!
//! Computes what is provable about a subtree without sampling it: conservative
//! value bounds, finiteness, sign, and how far a blended noise leaf reaches up.
//! References are resolved through the registry; a reference that leads back to
//! itself gives the answer that proves nothing.

use crate::density::functions;
use crate::density::functions::{
    at_least, is_finite, is_visiting, is_zero, CubicSpline, DensityFunction, DensityRegistry,
    MappedType, MarkerType, SplinePoint, SplineValue, TwoArgType,
};
use crate::density::magnitude;
use vstd::prelude::*;

verus! {

pub proof fn lemma_descend(reg: DensityRegistry, visiting: Seq<usize>, id: Seq<char>)
    requires
        functions::resolved(reg@, id) is Some,
        !visiting.contains((functions::resolved(reg@, id)->0) as usize),
    ensures
        functions::unvisited(
            visiting.push((functions::resolved(reg@, id)->0) as usize),
            reg@.len(),
        ) < functions::unvisited(visiting, reg@.len()),
{
    let i = functions::resolved(reg@, id)->0;
    assert(functions::resolves_to(reg@, id, i));
    assert(reg.entries.len() == reg@.len());
    functions::lemma_unvisited(visiting, i as usize, reg@.len());
}

// ---------------------------------------------------------------------------
// Value bounds
// ---------------------------------------------------------------------------
/// How the value bounds of a subtree are computed from its constants.
pub enum BoundsPlan {
    /// No bound on either side.
    Unbounded,
    /// The two given bounds, as bit patterns.
    Between(u64, u64),
    /// The smaller and the larger of two bit patterns.
    Spanning(u64, u64),
    /// At least zero, with no upper bound.
    NonNegative,
    Sum(Box<BoundsPlan>, Box<BoundsPlan>),
    Product(Box<BoundsPlan>, Box<BoundsPlan>),
    Least(Box<BoundsPlan>, Box<BoundsPlan>),
    Greatest(Box<BoundsPlan>, Box<BoundsPlan>),
    Mapped(MappedType, Box<BoundsPlan>),
    /// The smallest interval around both.
    Hull(Box<BoundsPlan>, Box<BoundsPlan>),
    /// The interval around nothing.
    Nothing,
    /// The interval, or no bound at all where it is one around nothing.
    OrUnbounded(Box<BoundsPlan>),
    /// From an integer level to the upper bound of the other plan, or to the
    /// level itself where that bound is lower.
    FromLevel(i32, Box<BoundsPlan>),
}

pub const NEG_100: u64 = 0xC059_0000_0000_0000;

pub const POS_80: u64 = 0x4054_0000_0000_0000;

pub const POS_1: u64 = 0x3FF0_0000_0000_0000;

pub const POS_0: u64 = 0;

/// The bounds plan of a subtree.
pub open spec fn plan_of(df: DensityFunction, reg: DensityRegistry, visiting: Seq<usize>) -> BoundsPlan
    decreases functions::unvisited(visiting, reg@.len()), df, 0nat,
{
    match df {
        DensityFunction::Constant { value } => BoundsPlan::Between(value, value),
        DensityFunction::Reference { id } => match functions::resolved(reg@, id@) {
            Some(i) => if visiting.contains(i as usize) {
                BoundsPlan::Unbounded
            } else {
                proof {
                    lemma_descend(reg, visiting, id@);
                }
                plan_of(reg@[i].function, reg, visiting.push(i as usize))
            },
            None => BoundsPlan::Unbounded,
        },
        DensityFunction::YClampedGradient { from_y, to_y, from_value, to_value } =>
            BoundsPlan::Spanning(from_value, to_value),
        DensityFunction::TwoArgumentSimple { op, argument1, argument2, nonzero1, nonzero2 } => {
            let a = Box::new(plan_of(*argument1, reg, visiting));
            let b = Box::new(plan_of(*argument2, reg, visiting));
            match op {
                TwoArgType::Add => BoundsPlan::Sum(a, b),
                TwoArgType::Mul => BoundsPlan::Product(a, b),
                TwoArgType::Min => BoundsPlan::Least(a, b),
                TwoArgType::Max => BoundsPlan::Greatest(a, b),
            }
        },
        DensityFunction::Mapped { mapping, input } => BoundsPlan::Mapped(
            mapping,
            Box::new(plan_of(*input, reg, visiting)),
        ),
        DensityFunction::Clamp { input, min, max } => BoundsPlan::Between(min, max),
        DensityFunction::RangeChoice { input, when_in_range, when_out_of_range } =>
            BoundsPlan::Hull(
            Box::new(plan_of(*when_in_range, reg, visiting)),
            Box::new(plan_of(*when_out_of_range, reg, visiting)),
        ),
        DensityFunction::IntervalSelect { input, functions } => BoundsPlan::OrUnbounded(
            Box::new(hull_plan(functions@, reg, visiting, functions@.len())),
        ),
        DensityFunction::WeirdScaledSampler { input } => BoundsPlan::NonNegative,
        DensityFunction::EndIslands => BoundsPlan::Between(NEG_100, POS_80),
        DensityFunction::BlendAlpha => BoundsPlan::Between(POS_1, POS_1),
        DensityFunction::BlendOffset => BoundsPlan::Between(POS_0, POS_0),
        DensityFunction::BlendDensity { input } => plan_of(*input, reg, visiting),
        DensityFunction::Marker { kind, wrapped } => plan_of(*wrapped, reg, visiting),
        DensityFunction::FindTopSurface { density, upper_bound, lower_bound } =>
            BoundsPlan::FromLevel(lower_bound, Box::new(plan_of(*upper_bound, reg, visiting))),
        _ => BoundsPlan::Unbounded,
    }
}

/// The hull of the first `n` plans.
pub open spec fn hull_plan(
    list: Seq<DensityFunction>,
    reg: DensityRegistry,
    visiting: Seq<usize>,
    n: nat,
) -> BoundsPlan
    decreases functions::unvisited(visiting, reg@.len()), list, n,
{
    if n == 0 || n > list.len() {
        BoundsPlan::Nothing
    } else {
        BoundsPlan::Hull(
            Box::new(hull_plan(list, reg, visiting, (n - 1) as nat)),
            Box::new(plan_of(list[n - 1], reg, visiting)),
        )
    }
}

/// How to compute static bounds for a density function subtree.
///
/// Where tight bounds are not derivable (free-form noise with unknown
/// amplitudes) the plan is unbounded, and short-circuit optimizations fall
/// through to the unconditional form.
pub fn compute_bounds(df: &DensityFunction, registry: &DensityRegistry) -> (r: BoundsPlan)
    ensures
        r == plan_of(*df, *registry, Seq::empty()),
{
    let mut visiting: Vec<usize> = Vec::new();
    compute_bounds_inner(df, registry, &mut visiting)
}

/// The bounds plan of a subtree below the entries being visited.
pub fn compute_bounds_inner(
    df: &DensityFunction,
    registry: &DensityRegistry,
    visiting: &mut Vec<usize>,
) -> (r: BoundsPlan)
    ensures
        r == plan_of(*df, *registry, old(visiting)@),
        final(visiting)@ == old(visiting)@,
    decreases functions::unvisited(old(visiting)@, registry@.len()), *df,
{
    match df {
            DensityFunction::Constant { value } => BoundsPlan::Between(*value, *value),
            DensityFunction::Reference { id } => match registry.lookup(id.as_str()) {
                Some(i) => {
                    if is_visiting(visiting, i) {
                        return BoundsPlan::Unbounded;
                    }
                    proof {
                        lemma_descend(*registry, visiting@, id@);
                    }
                    visiting.push(i);
                    let result = compute_bounds_inner(&registry.entries[i].function, registry, visiting);
                    let _ = visiting.pop();
                    assert(visiting@ == old(visiting)@);
                    result
                },
                None => BoundsPlan::Unbounded,
            },
            DensityFunction::YClampedGradient { from_y: _, to_y: _, from_value, to_value } =>
            BoundsPlan::Spanning(*from_value, *to_value),
            DensityFunction::TwoArgumentSimple {
            op,
            argument1,
            argument2,
            nonzero1: _,
            nonzero2: _,
        } => {
            let a = Box::new(compute_bounds_inner(argument1, registry, visiting));
            let b = Box::new(compute_bounds_inner(argument2, registry, visiting));
            match op {
                TwoArgType::Add => BoundsPlan::Sum(a, b),
                TwoArgType::Mul => BoundsPlan::Product(a, b),
                TwoArgType::Min => BoundsPlan::Least(a, b),
                TwoArgType::Max => BoundsPlan::Greatest(a, b),
            }
        },
        DensityFunction::Mapped { mapping, input } => BoundsPlan::Mapped(
            *mapping,
            Box::new(compute_bounds_inner(input, registry, visiting)),
        ),
        DensityFunction::Clamp { input: _, min, max } => BoundsPlan::Between(*min, *max),
        DensityFunction::RangeChoice { input: _, when_in_range, when_out_of_range } => {
            let inside = compute_bounds_inner(when_in_range, registry, visiting);
            let outside = compute_bounds_inner(when_out_of_range, registry, visiting);
            BoundsPlan::Hull(Box::new(inside), Box::new(outside))
        },
        DensityFunction::IntervalSelect { input, functions } => {
            let mut hull = BoundsPlan::Nothing;
            let mut i: usize = 0;
            while i < functions.len()
                invariant
                    i <= functions.len(),
                    *df == (DensityFunction::IntervalSelect {
                        input: *input,
                        functions: *functions,
                    }),
                    visiting@ == old(visiting)@,
                    hull == hull_plan(functions@, *registry, visiting@, i as nat),
                decreases functions.len() - i,
            {
                proof {
                    assert(decreases_to!(*df => df->functions));
                    assert(decreases_to!(*df => functions@[i as int]));
                }
                let next = compute_bounds_inner(&functions[i], registry, visiting);
                hull = BoundsPlan::Hull(Box::new(hull), Box::new(next));
                i += 1;
            }
            BoundsPlan::OrUnbounded(Box::new(hull))
        },
        DensityFunction::WeirdScaledSampler { input: _ } => BoundsPlan::NonNegative,
        DensityFunction::EndIslands => BoundsPlan::Between(NEG_100, POS_80),
        DensityFunction::BlendAlpha => BoundsPlan::Between(POS_1, POS_1),
        DensityFunction::BlendOffset => BoundsPlan::Between(POS_0, POS_0),
        DensityFunction::BlendDensity { input } => compute_bounds_inner(input, registry, visiting),
        DensityFunction::Marker { kind: _, wrapped } => compute_bounds_inner(
            wrapped,
            registry,
            visiting,
        ),
        DensityFunction::FindTopSurface { density: _, upper_bound, lower_bound } =>
            BoundsPlan::FromLevel(
            *lower_bound,
            Box::new(compute_bounds_inner(upper_bound, registry, visiting)),
        ),
        _ => BoundsPlan::Unbounded,
    }
}

// ---------------------------------------------------------------------------
// Sign of the density
// ---------------------------------------------------------------------------
/// The first of two channels that there is.
pub open spec fn first_of(
    a: Option<DensityFunction>,
    b: Option<DensityFunction>,
) -> Option<DensityFunction> {
    match a {
        Some(channel) => Some(channel),
        None => b,
    }
}

/// The interpolated marker that comes first in the subtree, operands taken in
/// their order and references followed: the first channel.
pub open spec fn first_channel(
    df: DensityFunction,
    reg: DensityRegistry,
    visiting: Seq<usize>,
) -> Option<DensityFunction>
    decreases functions::unvisited(visiting, reg@.len()), df, 0nat,
{
    match df {
        DensityFunction::Marker { kind, wrapped } => if kind == MarkerType::Interpolated {
            Some(df)
        } else {
            first_channel(*wrapped, reg, visiting)
        },
        DensityFunction::ShiftedNoise { noise, shift_x, shift_y, shift_z } => first_of(
            first_of(
                first_channel(*shift_x, reg, visiting),
                first_channel(*shift_y, reg, visiting),
            ),
            first_channel(*shift_z, reg, visiting),
        ),
        DensityFunction::BlendDensity { input } => first_channel(*input, reg, visiting),
        DensityFunction::Clamp { input, min, max } => first_channel(*input, reg, visiting),
        DensityFunction::Mapped { mapping, input } => first_channel(*input, reg, visiting),
        DensityFunction::WeirdScaledSampler { input } => first_channel(*input, reg, visiting),
        DensityFunction::TwoArgumentSimple { op, argument1, argument2, nonzero1, nonzero2 } =>
            first_of(
            first_channel(*argument1, reg, visiting),
            first_channel(*argument2, reg, visiting),
        ),
        DensityFunction::RangeChoice { input, when_in_range, when_out_of_range } => first_of(
            first_of(
                first_channel(*input, reg, visiting),
                first_channel(*when_in_range, reg, visiting),
            ),
            first_channel(*when_out_of_range, reg, visiting),
        ),
        DensityFunction::IntervalSelect { input, functions } => first_of(
            first_channel(*input, reg, visiting),
            list_channel(functions@, reg, visiting, functions@.len()),
        ),
        DensityFunction::FindTopSurface { density, upper_bound, lower_bound } => first_of(
            first_channel(*density, reg, visiting),
            first_channel(*upper_bound, reg, visiting),
        ),
        DensityFunction::Spline { spline } => spline_channel(spline, reg, visiting),
        DensityFunction::Reference { id } => match functions::resolved(reg@, id@) {
            Some(i) => if visiting.contains(i as usize) {
                None
            } else {
                proof {
                    lemma_descend(reg, visiting, id@);
                }
                first_channel(reg@[i].function, reg, visiting.push(i as usize))
            },
            None => None,
        },
        _ => None,
    }
}

/// The first channel among the first `n` functions.
pub open spec fn list_channel(
    list: Seq<DensityFunction>,
    reg: DensityRegistry,
    visiting: Seq<usize>,
    n: nat,
) -> Option<DensityFunction>
    decreases functions::unvisited(visiting, reg@.len()), list, n,
{
    if n == 0 || n > list.len() {
        None
    } else {
        first_of(
            list_channel(list, reg, visiting, (n - 1) as nat),
            first_channel(list[n - 1], reg, visiting),
        )
    }
}

/// The first channel in a spline's coordinate or in those of nested ones.
pub open spec fn spline_channel(
    spline: CubicSpline,
    reg: DensityRegistry,
    visiting: Seq<usize>,
) -> Option<DensityFunction>
    decreases functions::unvisited(visiting, reg@.len()), spline, 0nat,
{
    first_of(
        first_channel(*spline.coordinate, reg, visiting),
        points_channel(spline.points@, reg, visiting, spline.points@.len()),
    )
}

/// The first channel in what the first `n` points nest.
pub open spec fn points_channel(
    points: Seq<SplinePoint>,
    reg: DensityRegistry,
    visiting: Seq<usize>,
    n: nat,
) -> Option<DensityFunction>
    decreases functions::unvisited(visiting, reg@.len()), points, n,
{
    if n == 0 || n > points.len() {
        None
    } else {
        first_of(
            points_channel(points, reg, visiting, (n - 1) as nat),
            match points[n - 1].value {
                SplineValue::Constant(v) => None,
                SplineValue::Nested(nested) => spline_channel(*nested, reg, visiting),
            },
        )
    }
}

/// Whether a subtree holds a channel.
fn has_channel(df: &DensityFunction, registry: &DensityRegistry, visiting: &mut Vec<usize>) -> (r:
    bool)
    ensures
        r == (first_channel(*df, *registry, old(visiting)@) is Some),
        final(visiting)@ == old(visiting)@,
    decreases functions::unvisited(old(visiting)@, registry@.len()), *df,
{
    match df {
        DensityFunction::Marker { kind, wrapped } => *kind == MarkerType::Interpolated
            || has_channel(wrapped, registry, visiting),
        DensityFunction::ShiftedNoise { noise: _, shift_x, shift_y, shift_z } => has_channel(
            shift_x,
            registry,
            visiting,
        ) || has_channel(shift_y, registry, visiting) || has_channel(shift_z, registry, visiting),
        DensityFunction::BlendDensity { input } => has_channel(input, registry, visiting),
        DensityFunction::Clamp { input, min: _, max: _ } => has_channel(input, registry, visiting),
        DensityFunction::Mapped { mapping: _, input } => has_channel(input, registry, visiting),
        DensityFunction::WeirdScaledSampler { input } => has_channel(input, registry, visiting),
        DensityFunction::TwoArgumentSimple {
            op: _,
            argument1,
            argument2,
            nonzero1: _,
            nonzero2: _,
        } => has_channel(argument1, registry, visiting) || has_channel(
            argument2,
            registry,
            visiting,
        ),
        DensityFunction::RangeChoice { input, when_in_range, when_out_of_range } => has_channel(
            input,
            registry,
            visiting,
        ) || has_channel(when_in_range, registry, visiting) || has_channel(
            when_out_of_range,
            registry,
            visiting,
        ),
        DensityFunction::IntervalSelect { input, functions } => {
            let mut found = has_channel(input, registry, visiting);
            let ghost in_input = found;
            let mut i: usize = 0;
            while i < functions.len()
                invariant
                    i <= functions.len(),
                    *df == (DensityFunction::IntervalSelect {
                        input: *input,
                        functions: *functions,
                    }),
                    visiting@ == old(visiting)@,
                    in_input == (first_channel(**input, *registry, visiting@) is Some),
                    found == (in_input || list_channel(
                        functions@,
                        *registry,
                        visiting@,
                        i as nat,
                    ) is Some),
                decreases functions.len() - i,
            {
                proof {
                    assert(decreases_to!(*df => df->functions));
                    assert(decreases_to!(*df => functions@[i as int]));
                }
                let here = has_channel(&functions[i], registry, visiting);
                found = found || here;
                i += 1;
            }
            found
        },
        DensityFunction::FindTopSurface { density, upper_bound, lower_bound: _ } => has_channel(
            density,
            registry,
            visiting,
        ) || has_channel(upper_bound, registry, visiting),
        DensityFunction::Spline { spline } => spline_has_channel(spline, registry, visiting),
        DensityFunction::Reference { id } => match registry.lookup(id.as_str()) {
            Some(i) => {
                if is_visiting(visiting, i) {
                    return false;
                }
                proof {
                    lemma_descend(*registry, visiting@, id@);
                }
                visiting.push(i);
                let result = has_channel(&registry.entries[i].function, registry, visiting);
                let _ = visiting.pop();
                assert(visiting@ == old(visiting)@);
                result
            },
            None => false,
        },
        _ => false,
    }
}

fn spline_has_channel(
    spline: &CubicSpline,
    registry: &DensityRegistry,
    visiting: &mut Vec<usize>,
) -> (r: bool)
    ensures
        r == (spline_channel(*spline, *registry, old(visiting)@) is Some),
        final(visiting)@ == old(visiting)@,
    decreases functions::unvisited(old(visiting)@, registry@.len()), *spline,
{
    let mut found = has_channel(&spline.coordinate, registry, visiting);
    let ghost in_coordinate = found;
    let mut k: usize = 0;
    while k < spline.points.len()
        invariant
            k <= spline.points@.len(),
            visiting@ == old(visiting)@,
            in_coordinate == (first_channel(*spline.coordinate, *registry, visiting@) is Some),
            found == (in_coordinate || points_channel(
                spline.points@,
                *registry,
                visiting@,
                k as nat,
            ) is Some),
        decreases spline.points@.len() - k,
    {
        proof {
            assert(decreases_to!(*spline => spline.points));
            assert(decreases_to!(*spline => spline.points@[k as int]));
            assert(decreases_to!(*spline => spline.points@[k as int].value));
        }
        let here = match &spline.points[k].value {
            SplineValue::Constant(_) => false,
            SplineValue::Nested(nested) => {
                proof {
                    assert(decreases_to!(*spline => **nested));
                }
                spline_has_channel(nested, registry, visiting)
            },
        };
        found = found || here;
        k += 1;
    }
    found
}

/// Whether the value is shown non-positive by the first channel, and whether
/// that channel is still to come. A subtree that shows nothing still takes the
/// first channel with it, if it holds one.
pub open spec fn nonpositive_of(
    df: DensityFunction,
    reg: DensityRegistry,
    visiting: Seq<usize>,
    first_marker: bool,
) -> (bool, bool)
    decreases functions::unvisited(visiting, reg@.len()), df, 0nat,
{
    let passed = (false, first_marker && first_channel(df, reg, visiting) is None);
    match df {
        DensityFunction::Marker { kind, wrapped } => if kind == MarkerType::Interpolated {
            (first_marker, false)
        } else {
            nonpositive_of(*wrapped, reg, visiting, first_marker)
        },
        DensityFunction::Mapped { mapping, input } => if mapping == MappedType::Squeeze {
            nonpositive_of(*input, reg, visiting, first_marker)
        } else {
            passed
        },
        DensityFunction::TwoArgumentSimple { op, argument1, argument2, nonzero1, nonzero2 } => if op
            == TwoArgType::Min {
            let first = nonpositive_of(*argument1, reg, visiting, first_marker);
            if first.0 {
                first
            } else {
                nonpositive_of(*argument2, reg, visiting, first.1)
            }
        } else {
            passed
        },
        DensityFunction::Reference { id } => match functions::resolved(reg@, id@) {
            Some(i) => if visiting.contains(i as usize) {
                (false, first_marker)
            } else {
                proof {
                    lemma_descend(reg, visiting, id@);
                }
                nonpositive_of(reg@[i].function, reg, visiting.push(i as usize), first_marker)
            },
            None => (false, first_marker),
        },
        _ => passed,
    }
}

/// Whether `final_density <= 0` is implied by its first interpolated channel
/// being `<= 0`.
///
/// Deliberately structural and conservative: it recognizes only operations whose
/// sign-at-zero behaviour is provable, and returns `false` for anything else, so
/// a change of the functions degrades to "never skip" rather than to wrong
/// terrain.
pub fn density_nonpositive_when_first_channel_nonpositive(
    df: &DensityFunction,
    registry: &DensityRegistry,
) -> (r: bool)
    ensures
        r == nonpositive_of(*df, *registry, Seq::empty(), true).0,
{
    let mut visiting: Vec<usize> = Vec::new();
    let mut first_marker = true;
    nonpositive_inner(df, registry, &mut visiting, &mut first_marker)
}

pub fn nonpositive_inner(
    df: &DensityFunction,
    registry: &DensityRegistry,
    visiting: &mut Vec<usize>,
    first_marker: &mut bool,
) -> (r: bool)
    ensures
        (r, *final(first_marker)) == nonpositive_of(
            *df,
            *registry,
            old(visiting)@,
            *old(first_marker),
        ),
        final(visiting)@ == old(visiting)@,
    decreases functions::unvisited(old(visiting)@, registry@.len()), *df,
{
    match df {
        DensityFunction::Marker { kind, wrapped } => {
            if *kind == MarkerType::Interpolated {
                // Only the first channel encountered is the one that is bounded.
                let first = *first_marker;
                *first_marker = false;
                return first;
            }
            return nonpositive_inner(wrapped, registry, visiting, first_marker);
        },
        DensityFunction::Mapped { mapping, input } => {
            if *mapping == MappedType::Squeeze {
                return nonpositive_inner(input, registry, visiting, first_marker);
            }
        },
        DensityFunction::TwoArgumentSimple {
            op,
            argument1,
            argument2,
            nonzero1: _,
            nonzero2: _,
        } => {
            if *op == TwoArgType::Min {
                // `min` needs only one non-positive side, but the channel must
                // be reachable through it, so try each in turn.
                if nonpositive_inner(argument1, registry, visiting, first_marker) {
                    return true;
                }
                return nonpositive_inner(argument2, registry, visiting, first_marker);
            }
        },
        DensityFunction::Reference { id } => {
            return match registry.lookup(id.as_str()) {
                Some(i) => {
                    if is_visiting(visiting, i) {
                        return false;
                    }
                    proof {
                        lemma_descend(*registry, visiting@, id@);
                    }
                    visiting.push(i);
                    let result = nonpositive_inner(
                        &registry.entries[i].function,
                        registry,
                        visiting,
                        first_marker,
                    );
                    let _ = visiting.pop();
                    assert(visiting@ == old(visiting)@);
                    result
                },
                None => false,
            };
        },
        _ => {},
    }
    if has_channel(df, registry, visiting) {
        *first_marker = false;
    }
    false
}

// ---------------------------------------------------------------------------
// Zeroing gradients and finite values
// ---------------------------------------------------------------------------
/// The level from which a subtree is a gradient that has slid down to zero.
pub open spec fn zeroing_level(
    df: DensityFunction,
    reg: DensityRegistry,
    visiting: Seq<usize>,
) -> Option<i32>
    decreases functions::unvisited(visiting, reg@.len()), df, 0nat,
{
    match df {
        DensityFunction::Marker { kind, wrapped } => zeroing_level(*wrapped, reg, visiting),
        DensityFunction::Reference { id } => match functions::resolved(reg@, id@) {
            Some(i) => if visiting.contains(i as usize) {
                None
            } else {
                proof {
                    lemma_descend(reg, visiting, id@);
                }
                zeroing_level(reg@[i].function, reg, visiting.push(i as usize))
            },
            None => None,
        },
        DensityFunction::YClampedGradient { from_y, to_y, from_value, to_value } => if
            functions::zero_bits(to_value) && from_y < to_y && functions::finite_bits(from_value) {
            Some(to_y)
        } else {
            None
        },
        _ => None,
    }
}

/// The Y at or above which this node evaluates to exactly a zero, if it is a
/// `y_clamped_gradient` that slides down to zero.
///
/// Above `to_y` the clamp returns the end value itself, a zero; at `to_y` the
/// interpolation factor is exactly one, so the result is a finite value plus
/// its own negation.
pub fn zeroing_gradient_at_or_above(
    df: &DensityFunction,
    registry: &DensityRegistry,
    visiting: &mut Vec<usize>,
) -> (r: Option<i32>)
    ensures
        r == zeroing_level(*df, *registry, old(visiting)@),
        final(visiting)@ == old(visiting)@,
    decreases functions::unvisited(old(visiting)@, registry@.len()), *df,
{
    match df {
        DensityFunction::Marker { kind: _, wrapped } => zeroing_gradient_at_or_above(
            wrapped,
            registry,
            visiting,
        ),
            DensityFunction::Reference { id } => match registry.lookup(id.as_str()) {
                Some(i) => {
                    if is_visiting(visiting, i) {
                        return None;
                    }
                    proof {
                        lemma_descend(*registry, visiting@, id@);
                    }
                    visiting.push(i);
                    let result = zeroing_gradient_at_or_above(&registry.entries[i].function, registry, visiting);
                    let _ = visiting.pop();
                    assert(visiting@ == old(visiting)@);
                    result
                },
                None => None,
            },
        DensityFunction::YClampedGradient { from_y, to_y, from_value, to_value } => {
            if is_zero(*to_value) && *from_y < *to_y && is_finite(*from_value) {
                Some(*to_y)
            } else {
                None
            }
        },
        _ => None,
    }
}

/// The largest magnitude of the noise samplers' values, which stay below it: 256.
pub const NOISE_MAGNITUDE: u64 = 0x4070_0000_0000_0000;

/// The largest magnitude of a scaled sampler's values: three times a noise's.
pub const SCALED_NOISE_MAGNITUDE: u64 = 0x4088_0000_0000_0000;

/// The magnitude of a half.
pub const HALF: u64 = 0x3fe0_0000_0000_0000;

/// The magnitude of a quarter.
pub const QUARTER: u64 = 0x3fd0_0000_0000_0000;

/// The magnitude of one.
pub const ONE: u64 = 0x3ff0_0000_0000_0000;

/// The magnitude of eight.
pub const EIGHT: u64 = 0x4020_0000_0000_0000;

/// The magnitude of a hundred.
pub const HUNDRED: u64 = 0x4059_0000_0000_0000;

/// The largest magnitude of a 32-bit level.
pub const LEVEL_MAGNITUDE: u64 = 0x41e0_0000_0000_0000;

/// The least and the greatest value that a subtree may have, as bit patterns.
#[derive(Debug, Clone, Copy, PartialEq, Eq, Structural)]
pub struct Spread {
    pub low: u64,
    pub high: u64,
}

impl Spread {
    /// Both ends are finite.
    pub open spec fn wf(self) -> bool {
        magnitude::in_range(self.low) && magnitude::in_range(self.high)
    }

    /// The value is finite and lies between the ends.
    pub open spec fn holds(self, bits: u64) -> bool {
        &&& functions::finite_bits(bits)
        &&& functions::numeric_rank(self.low) <= functions::numeric_rank(bits)
        &&& functions::numeric_rank(bits) <= functions::numeric_rank(self.high)
    }

    /// How far from zero the ends lie.
    pub open spec fn reach(self) -> u64 {
        larger(magnitude::unsigned(self.low), magnitude::unsigned(self.high))
    }
}

pub open spec fn larger(a: u64, b: u64) -> u64 {
    if a >= b {
        a
    } else {
        b
    }
}

/// The lower of two values.
pub open spec fn lower(a: u64, b: u64) -> u64 {
    if functions::numeric_rank(a) <= functions::numeric_rank(b) {
        a
    } else {
        b
    }
}

/// The higher of two values.
pub open spec fn higher(a: u64, b: u64) -> u64 {
    if functions::numeric_rank(a) >= functions::numeric_rank(b) {
        a
    } else {
        b
    }
}

/// As far above zero as below.
pub open spec fn evenly(reach: u64) -> Spread {
    Spread { low: magnitude::flipped(reach), high: reach }
}

/// The spread of a constant, if it is finite.
pub open spec fn constant_spread(bits: u64) -> Option<Spread> {
    if functions::finite_bits(bits) {
        Some(Spread { low: bits, high: bits })
    } else {
        None
    }
}

/// The spread of a value that is one of two.
pub open spec fn either_spread(a: Option<Spread>, b: Option<Spread>) -> Option<Spread> {
    match (a, b) {
        (Some(m), Some(n)) => Some(
            Spread { low: lower(m.low, n.low), high: higher(m.high, n.high) },
        ),
        _ => None,
    }
}

/// A spread with both ends, if there are both.
pub open spec fn spread_with(low: Option<u64>, high: Option<u64>) -> Option<Spread> {
    match (low, high) {
        (Some(l), Some(h)) => Some(Spread { low: l, high: h }),
        _ => None,
    }
}

/// The spread of the product of two numbers, unless it may overflow.
pub open spec fn product_spread(a: u64, b: u64) -> Option<Spread> {
    spread_with(magnitude::product_below(a, b), magnitude::product_above(a, b))
}

/// The spread of an operation's result, unless that may overflow. A product is
/// least and greatest where both operands are.
pub open spec fn two_argument_spread(op: TwoArgType, a: Spread, b: Spread) -> Option<Spread> {
    match op {
        TwoArgType::Add => spread_with(
            magnitude::sum_below(a.low, b.low),
            magnitude::sum_above(a.high, b.high),
        ),
        TwoArgType::Mul => either_spread(
            either_spread(product_spread(a.low, b.low), product_spread(a.low, b.high)),
            either_spread(product_spread(a.high, b.low), product_spread(a.high, b.high)),
        ),
        TwoArgType::Min => Some(Spread { low: lower(a.low, b.low), high: lower(a.high, b.high) }),
        TwoArgType::Max => Some(
            Spread { low: higher(a.low, b.low), high: higher(a.high, b.high) },
        ),
    }
}

/// The spread of an absolute value.
pub open spec fn absolute_spread(a: Spread) -> Spread {
    Spread {
        low: if a.low < magnitude::SIGN {
            a.low
        } else if a.high >= magnitude::SIGN {
            magnitude::unsigned(a.high)
        } else {
            0
        },
        high: a.reach(),
    }
}

/// A bound above on the cube of a value, unless it may overflow.
pub open spec fn cube_above(a: u64) -> Option<u64> {
    let m = magnitude::unsigned(a);
    match if a < magnitude::SIGN {
        magnitude::product_above(m, m)
    } else {
        magnitude::product_below(m, m)
    } {
        Some(square) => magnitude::product_above(square, a),
        None => None,
    }
}

/// A bound below on the cube of a value, unless it may overflow.
pub open spec fn cube_below(a: u64) -> Option<u64> {
    magnitude::flipped_if_any(cube_above(magnitude::flipped(a)))
}

/// The spread of what is scaled by a factor where it is negative.
pub open spec fn scaled_negative(a: Spread, factor: u64) -> Option<Spread> {
    spread_with(
        if a.low < magnitude::SIGN {
            Some(a.low)
        } else {
            magnitude::product_below(a.low, factor)
        },
        if a.high < magnitude::SIGN {
            Some(a.high)
        } else {
            magnitude::product_above(a.high, factor)
        },
    )
}

/// The spread of a mapped value, unless that may overflow. A reciprocal may
/// divide by zero, so it has none.
pub open spec fn mapped_spread(mapping: MappedType, a: Spread) -> Option<Spread> {
    match mapping {
        MappedType::Abs => Some(absolute_spread(a)),
        MappedType::Square => {
            let b = absolute_spread(a);
            spread_with(
                magnitude::product_below(b.low, b.low),
                magnitude::product_above(b.high, b.high),
            )
        },
        MappedType::Cube => spread_with(cube_below(a.low), cube_above(a.high)),
        MappedType::HalfNegative => scaled_negative(a, HALF),
        MappedType::QuarterNegative => scaled_negative(a, QUARTER),
        MappedType::Invert => None,
        MappedType::Squeeze => Some(evenly(HALF)),
    }
}

/// A value moved between two others.
pub open spec fn moved_between(a: u64, min: u64, max: u64) -> u64 {
    lower(higher(a, min), max)
}

/// The spread of a clamped value, if the limits are finite. Limits in the wrong
/// order tell only that the value is one of them.
pub open spec fn clamped_spread(a: Spread, min: u64, max: u64) -> Option<Spread> {
    if !functions::finite_bits(min) || !functions::finite_bits(max) {
        None
    } else if functions::numeric_rank(min) <= functions::numeric_rank(max) {
        Some(
            Spread { low: moved_between(a.low, min, max), high: moved_between(a.high, min, max) },
        )
    } else {
        Some(Spread { low: max, high: min })
    }
}

/// The spread of the value of a subtree, where it is shown to be finite at every
/// position.
pub open spec fn spread_of(
    df: DensityFunction,
    reg: DensityRegistry,
    visiting: Seq<usize>,
) -> Option<Spread>
    decreases functions::unvisited(visiting, reg@.len()), df, 0nat,
{
    match df {
        DensityFunction::Constant { value } => constant_spread(value),
        // Distinct ends keep the interpolation factor's divisor away from zero.
        DensityFunction::YClampedGradient { from_y, to_y, from_value, to_value } => if from_y
            != to_y {
            either_spread(constant_spread(from_value), constant_spread(to_value))
        } else {
            None
        },
        DensityFunction::Noise { noise } => Some(evenly(NOISE_MAGNITUDE)),
        DensityFunction::ShiftA { noise } => Some(evenly(NOISE_MAGNITUDE)),
        DensityFunction::ShiftB { noise } => Some(evenly(NOISE_MAGNITUDE)),
        DensityFunction::Shift { noise } => Some(evenly(NOISE_MAGNITUDE)),
        DensityFunction::BlendedNoise => Some(evenly(NOISE_MAGNITUDE)),
        DensityFunction::EndIslands => Some(evenly(HUNDRED)),
        DensityFunction::BlendAlpha => Some(evenly(ONE)),
        DensityFunction::BlendOffset => Some(evenly(0)),
        DensityFunction::ShiftedNoise { noise, shift_x, shift_y, shift_z } => if spread_of(
            *shift_x,
            reg,
            visiting,
        ) is Some && spread_of(*shift_y, reg, visiting) is Some && spread_of(
            *shift_z,
            reg,
            visiting,
        ) is Some {
            Some(evenly(NOISE_MAGNITUDE))
        } else {
            None
        },
        DensityFunction::Marker { kind, wrapped } => spread_of(*wrapped, reg, visiting),
        DensityFunction::BlendDensity { input } => spread_of(*input, reg, visiting),
        DensityFunction::Clamp { input, min, max } => match spread_of(*input, reg, visiting) {
            Some(a) => clamped_spread(a, min, max),
            None => None,
        },
        DensityFunction::Mapped { mapping, input } => match spread_of(*input, reg, visiting) {
            Some(a) => mapped_spread(mapping, a),
            None => None,
        },
        DensityFunction::TwoArgumentSimple { op, argument1, argument2, nonzero1, nonzero2 } =>
            match (
            spread_of(*argument1, reg, visiting),
            spread_of(*argument2, reg, visiting),
        ) {
            (Some(a), Some(b)) => two_argument_spread(op, a, b),
            _ => None,
        },
        DensityFunction::RangeChoice { input, when_in_range, when_out_of_range } => if spread_of(
            *input,
            reg,
            visiting,
        ) is Some {
            either_spread(
                spread_of(*when_in_range, reg, visiting),
                spread_of(*when_out_of_range, reg, visiting),
            )
        } else {
            None
        },
        DensityFunction::IntervalSelect { input, functions } => if spread_of(
            *input,
            reg,
            visiting,
        ) is Some {
            list_spread(functions@, reg, visiting, functions@.len())
        } else {
            None
        },
        DensityFunction::WeirdScaledSampler { input } => if spread_of(
            *input,
            reg,
            visiting,
        ) is Some {
            Some(evenly(SCALED_NOISE_MAGNITUDE))
        } else {
            None
        },
        // A level between a 32-bit one and the upper bound.
        DensityFunction::FindTopSurface { density, upper_bound, lower_bound } => if spread_of(
            *density,
            reg,
            visiting,
        ) is Some {
            either_spread(spread_of(*upper_bound, reg, visiting), Some(evenly(LEVEL_MAGNITUDE)))
        } else {
            None
        },
        DensityFunction::Spline { spline } => spline_spread(spline, reg, visiting),
        DensityFunction::Reference { id } => match functions::resolved(reg@, id@) {
            Some(i) => if visiting.contains(i as usize) {
                None
            } else {
                proof {
                    lemma_descend(reg, visiting, id@);
                }
                spread_of(reg@[i].function, reg, visiting.push(i as usize))
            },
            None => None,
        },
    }
}

/// The spread of a value that is one of those of the first `n` functions.
pub open spec fn list_spread(
    list: Seq<DensityFunction>,
    reg: DensityRegistry,
    visiting: Seq<usize>,
    n: nat,
) -> Option<Spread>
    decreases functions::unvisited(visiting, reg@.len()), list, n,
{
    if n == 0 || n > list.len() {
        Some(evenly(0))
    } else if n == 1 {
        spread_of(list[0], reg, visiting)
    } else {
        either_spread(
            list_spread(list, reg, visiting, (n - 1) as nat),
            spread_of(list[n - 1], reg, visiting),
        )
    }
}

/// No spline segment has a zero or negative width.
pub open spec fn increasing_locations(points: Seq<SplinePoint>) -> bool {
    forall|i: int|
        0 <= i < points.len() - 1 ==> !functions::at_least_bits(
            (#[trigger] points[i]).location,
            points[i + 1].location,
        )
}

/// How far from zero a spline's locations, derivatives and values may lie.
#[derive(Debug, Clone, Copy, PartialEq, Eq, Structural)]
pub struct PointReach {
    pub location: u64,
    pub derivative: u64,
    pub value: u64,
}

impl PointReach {
    /// The magnitudes are finite.
    pub open spec fn wf(self) -> bool {
        self.location <= magnitude::MOST && self.derivative <= magnitude::MOST && self.value
            <= magnitude::MOST
    }

    /// The reach of these points and one more.
    pub open spec fn with(self, location: Spread, derivative: Spread, value: Spread) -> Self {
        PointReach {
            location: larger(self.location, location.reach()),
            derivative: larger(self.derivative, derivative.reach()),
            value: larger(self.value, value.reach()),
        }
    }
}

/// How far from zero a cubic between points of the given reach, or the line
/// beyond them, may lie at a coordinate of the given spread: no farther than eight
/// times the greater of a value and of a derivative along the farthest
/// coordinate. Where that is out of range, finite points and a finite coordinate
/// still tell that the value is finite.
pub open spec fn cubic_spread(coordinate: Spread, points: PointReach) -> Spread {
    let width = larger(coordinate.reach(), points.location);
    match magnitude::product_above(width, points.derivative) {
        Some(slope) => match magnitude::product_above(larger(slope, points.value), EIGHT) {
            Some(reach) => evenly(reach),
            None => evenly(magnitude::MOST),
        },
        None => evenly(magnitude::MOST),
    }
}

/// The spread of a spline's value: it is finite if the coordinate and the points
/// are, and the locations are in increasing order.
pub open spec fn spline_spread(
    spline: CubicSpline,
    reg: DensityRegistry,
    visiting: Seq<usize>,
) -> Option<Spread>
    decreases functions::unvisited(visiting, reg@.len()), spline, 0nat,
{
    if increasing_locations(spline.points@) {
        match (
            spread_of(*spline.coordinate, reg, visiting),
            point_reach(spline.points@, reg, visiting, spline.points@.len()),
        ) {
            (Some(coordinate), Some(points)) => Some(cubic_spread(coordinate, points)),
            _ => None,
        }
    } else {
        None
    }
}

/// The reach of the first `n` points, if they are finite.
pub open spec fn point_reach(
    points: Seq<SplinePoint>,
    reg: DensityRegistry,
    visiting: Seq<usize>,
    n: nat,
) -> Option<PointReach>
    decreases functions::unvisited(visiting, reg@.len()), points, n,
{
    if n == 0 || n > points.len() {
        Some(PointReach { location: 0, derivative: 0, value: 0 })
    } else {
        match (
            point_reach(points, reg, visiting, (n - 1) as nat),
            constant_spread(points[n - 1].location),
            constant_spread(points[n - 1].derivative),
            match points[n - 1].value {
                SplineValue::Constant(v) => constant_spread(v),
                SplineValue::Nested(nested) => spline_spread(*nested, reg, visiting),
            },
        ) {
            (Some(before), Some(location), Some(derivative), Some(value)) => Some(
                before.with(location, derivative, value),
            ),
            _ => None,
        }
    }
}

/// A subtree is shown to have a finite value at every position.
pub open spec fn finite_of(df: DensityFunction, reg: DensityRegistry, visiting: Seq<usize>) -> bool {
    spread_of(df, reg, visiting) is Some
}

/// A spline is shown to have a finite value at every position.
pub open spec fn finite_spline(
    spline: CubicSpline,
    reg: DensityRegistry,
    visiting: Seq<usize>,
) -> bool {
    spline_spread(spline, reg, visiting) is Some
}

/// A spread that is there has finite magnitudes.
pub open spec fn sound_spread(spread: Option<Spread>) -> bool {
    spread is Some ==> spread->0.wf()
}

fn spread_of_constant(bits: u64) -> (r: Option<Spread>)
    ensures
        r == constant_spread(bits),
        sound_spread(r),
{
    if is_finite(bits) {
        Some(Spread { low: bits, high: bits })
    } else {
        None
    }
}

fn larger_of(a: u64, b: u64) -> (r: u64)
    ensures
        r == larger(a, b),
{
    if a >= b {
        a
    } else {
        b
    }
}

fn lower_of(a: u64, b: u64) -> (r: u64)
    requires
        magnitude::in_range(a),
        magnitude::in_range(b),
    ensures
        r == lower(a, b),
{
    if at_least(b, a) {
        a
    } else {
        b
    }
}

fn higher_of(a: u64, b: u64) -> (r: u64)
    requires
        magnitude::in_range(a),
        magnitude::in_range(b),
    ensures
        r == higher(a, b),
{
    if at_least(a, b) {
        a
    } else {
        b
    }
}

fn widest_of(a: Spread) -> (r: u64)
    requires
        a.wf(),
    ensures
        r == a.reach(),
        r <= magnitude::MOST,
{
    larger_of(magnitude::without_sign(a.low), magnitude::without_sign(a.high))
}

fn spread_evenly(reach: u64) -> (r: Spread)
    requires
        reach <= magnitude::MOST,
    ensures
        r == evenly(reach),
        r.wf(),
{
    Spread { low: magnitude::flip(reach), high: reach }
}

fn spread_of_either(a: Option<Spread>, b: Option<Spread>) -> (r: Option<Spread>)
    requires
        sound_spread(a),
        sound_spread(b),
    ensures
        r == either_spread(a, b),
        sound_spread(r),
{
    match (a, b) {
        (Some(m), Some(n)) => Some(
            Spread { low: lower_of(m.low, n.low), high: higher_of(m.high, n.high) },
        ),
        _ => None,
    }
}

fn spread_of_both(low: Option<u64>, high: Option<u64>) -> (r: Option<Spread>)
    requires
        low is Some ==> magnitude::in_range(low->0),
        high is Some ==> magnitude::in_range(high->0),
    ensures
        r == spread_with(low, high),
        sound_spread(r),
{
    match (low, high) {
        (Some(l), Some(h)) => Some(Spread { low: l, high: h }),
        _ => None,
    }
}

fn spread_of_product(a: u64, b: u64) -> (r: Option<Spread>)
    requires
        magnitude::in_range(a),
        magnitude::in_range(b),
    ensures
        r == product_spread(a, b),
        sound_spread(r),
{
    spread_of_both(magnitude::product_at_least(a, b), magnitude::product_at_most(a, b))
}

fn spread_of_two(op: TwoArgType, a: Spread, b: Spread) -> (r: Option<Spread>)
    requires
        a.wf(),
        b.wf(),
    ensures
        r == two_argument_spread(op, a, b),
        sound_spread(r),
{
    match op {
        TwoArgType::Add => spread_of_both(
            magnitude::sum_at_least(a.low, b.low),
            magnitude::sum_at_most(a.high, b.high),
        ),
        TwoArgType::Mul => spread_of_either(
            spread_of_either(spread_of_product(a.low, b.low), spread_of_product(a.low, b.high)),
            spread_of_either(spread_of_product(a.high, b.low), spread_of_product(a.high, b.high)),
        ),
        TwoArgType::Min => Some(
            Spread { low: lower_of(a.low, b.low), high: lower_of(a.high, b.high) },
        ),
        TwoArgType::Max => Some(
            Spread { low: higher_of(a.low, b.low), high: higher_of(a.high, b.high) },
        ),
    }
}

fn absolute_of(a: Spread) -> (r: Spread)
    requires
        a.wf(),
    ensures
        r == absolute_spread(a),
        r.wf(),
{
    let low: u64 = if a.low < magnitude::SIGN {
        a.low
    } else if a.high >= magnitude::SIGN {
        magnitude::without_sign(a.high)
    } else {
        0
    };
    Spread { low, high: widest_of(a) }
}

fn cube_at_most(a: u64) -> (r: Option<u64>)
    requires
        magnitude::in_range(a),
    ensures
        r == cube_above(a),
        r is Some ==> magnitude::in_range(r->0),
{
    let m: u64 = magnitude::without_sign(a);
    let square = if a < magnitude::SIGN {
        magnitude::product_at_most(m, m)
    } else {
        magnitude::product_at_least(m, m)
    };
    match square {
        Some(square) => magnitude::product_at_most(square, a),
        None => None,
    }
}

fn spread_of_negative(a: Spread, factor: u64) -> (r: Option<Spread>)
    requires
        a.wf(),
        factor <= magnitude::MOST,
    ensures
        r == scaled_negative(a, factor),
        sound_spread(r),
{
    let low = if a.low < magnitude::SIGN {
        Some(a.low)
    } else {
        magnitude::product_at_least(a.low, factor)
    };
    let high = if a.high < magnitude::SIGN {
        Some(a.high)
    } else {
        magnitude::product_at_most(a.high, factor)
    };
    spread_of_both(low, high)
}

fn spread_of_mapped(mapping: MappedType, a: Spread) -> (r: Option<Spread>)
    requires
        a.wf(),
    ensures
        r == mapped_spread(mapping, a),
        sound_spread(r),
{
    match mapping {
        MappedType::Abs => Some(absolute_of(a)),
        MappedType::Square => {
            let b = absolute_of(a);
            spread_of_both(
                magnitude::product_at_least(b.low, b.low),
                magnitude::product_at_most(b.high, b.high),
            )
        },
        MappedType::Cube => spread_of_both(
            magnitude::flip_if_any(cube_at_most(magnitude::flip(a.low))),
            cube_at_most(a.high),
        ),
        MappedType::HalfNegative => spread_of_negative(a, HALF),
        MappedType::QuarterNegative => spread_of_negative(a, QUARTER),
        MappedType::Invert => None,
        MappedType::Squeeze => Some(spread_evenly(HALF)),
    }
}

fn spread_of_clamped(a: Spread, min: u64, max: u64) -> (r: Option<Spread>)
    requires
        a.wf(),
    ensures
        r == clamped_spread(a, min, max),
        sound_spread(r),
{
    if !is_finite(min) || !is_finite(max) {
        None
    } else if at_least(max, min) {
        Some(
            Spread {
                low: lower_of(higher_of(a.low, min), max),
                high: lower_of(higher_of(a.high, min), max),
            },
        )
    } else {
        Some(Spread { low: max, high: min })
    }
}

fn spread_of_cubic(coordinate: Spread, points: PointReach) -> (r: Spread)
    requires
        coordinate.wf(),
        points.wf(),
    ensures
        r == cubic_spread(coordinate, points),
        r.wf(),
{
    let width: u64 = larger_of(widest_of(coordinate), points.location);
    match magnitude::product_at_most(width, points.derivative) {
        Some(slope) => match magnitude::product_at_most(larger_of(slope, points.value), EIGHT) {
            Some(reach) => spread_evenly(reach),
            None => spread_evenly(magnitude::MOST),
        },
        None => spread_evenly(magnitude::MOST),
    }
}

/// The spread of a subtree's value, if it is shown to be finite.
fn value_spread(df: &DensityFunction, registry: &DensityRegistry, visiting: &mut Vec<usize>) -> (r:
    Option<Spread>)
    ensures
        r == spread_of(*df, *registry, old(visiting)@),
        sound_spread(r),
        final(visiting)@ == old(visiting)@,
    decreases functions::unvisited(old(visiting)@, registry@.len()), *df,
{
    match df {
        DensityFunction::Constant { value } => spread_of_constant(*value),
        DensityFunction::YClampedGradient { from_y, to_y, from_value, to_value } => {
            if *from_y == *to_y {
                return None;
            }
            spread_of_either(spread_of_constant(*from_value), spread_of_constant(*to_value))
        },
        DensityFunction::Noise { noise: _ } => Some(spread_evenly(NOISE_MAGNITUDE)),
        DensityFunction::ShiftA { noise: _ } => Some(spread_evenly(NOISE_MAGNITUDE)),
        DensityFunction::ShiftB { noise: _ } => Some(spread_evenly(NOISE_MAGNITUDE)),
        DensityFunction::Shift { noise: _ } => Some(spread_evenly(NOISE_MAGNITUDE)),
        DensityFunction::BlendedNoise => Some(spread_evenly(NOISE_MAGNITUDE)),
        DensityFunction::EndIslands => Some(spread_evenly(HUNDRED)),
        DensityFunction::BlendAlpha => Some(spread_evenly(ONE)),
        DensityFunction::BlendOffset => Some(spread_evenly(0)),
        DensityFunction::ShiftedNoise { noise: _, shift_x, shift_y, shift_z } => {
            if value_spread(shift_x, registry, visiting).is_some() && value_spread(
                shift_y,
                registry,
                visiting,
            ).is_some() && value_spread(shift_z, registry, visiting).is_some() {
                Some(spread_evenly(NOISE_MAGNITUDE))
            } else {
                None
            }
        },
        DensityFunction::Marker { kind: _, wrapped } => value_spread(wrapped, registry, visiting),
        DensityFunction::BlendDensity { input } => value_spread(input, registry, visiting),
        DensityFunction::Clamp { input, min, max } => match value_spread(
            input,
            registry,
            visiting,
        ) {
            Some(a) => spread_of_clamped(a, *min, *max),
            None => None,
        },
        DensityFunction::Mapped { mapping, input } => match value_spread(
            input,
            registry,
            visiting,
        ) {
            Some(a) => spread_of_mapped(*mapping, a),
            None => None,
        },
        DensityFunction::TwoArgumentSimple {
            op,
            argument1,
            argument2,
            nonzero1: _,
            nonzero2: _,
        } => {
            let first = value_spread(argument1, registry, visiting);
            let second = value_spread(argument2, registry, visiting);
            match (first, second) {
                (Some(a), Some(b)) => spread_of_two(*op, a, b),
                _ => None,
            }
        },
        DensityFunction::RangeChoice { input, when_in_range, when_out_of_range } => {
            if value_spread(input, registry, visiting).is_some() {
                let inside = value_spread(when_in_range, registry, visiting);
                let outside = value_spread(when_out_of_range, registry, visiting);
                spread_of_either(inside, outside)
            } else {
                None
            }
        },
        DensityFunction::IntervalSelect { input, functions } => {
            if value_spread(input, registry, visiting).is_none() {
                return None;
            }
            let mut spread: Option<Spread> = Some(spread_evenly(0));
            let mut i: usize = 0;
            while i < functions.len()
                invariant
                    i <= functions.len(),
                    *df == (DensityFunction::IntervalSelect {
                        input: *input,
                        functions: *functions,
                    }),
                    visiting@ == old(visiting)@,
                    spread == list_spread(functions@, *registry, visiting@, i as nat),
                    sound_spread(spread),
                decreases functions.len() - i,
            {
                proof {
                    assert(decreases_to!(*df => df->functions));
                    assert(decreases_to!(*df => functions@[i as int]));
                }
                let next = value_spread(&functions[i], registry, visiting);
                spread = if i == 0 {
                    next
                } else {
                    spread_of_either(spread, next)
                };
                i += 1;
            }
            spread
        },
        DensityFunction::WeirdScaledSampler { input } => {
            if value_spread(input, registry, visiting).is_some() {
                Some(spread_evenly(SCALED_NOISE_MAGNITUDE))
            } else {
                None
            }
        },
        DensityFunction::FindTopSurface { density, upper_bound, lower_bound: _ } => {
            if value_spread(density, registry, visiting).is_some() {
                let upper = value_spread(upper_bound, registry, visiting);
                spread_of_either(upper, Some(spread_evenly(LEVEL_MAGNITUDE)))
            } else {
                None
            }
        },
        DensityFunction::Spline { spline } => spline_value_spread(spline, registry, visiting),
        DensityFunction::Reference { id } => match registry.lookup(id.as_str()) {
            Some(i) => {
                if is_visiting(visiting, i) {
                    return None;
                }
                proof {
                    lemma_descend(*registry, visiting@, id@);
                }
                visiting.push(i);
                let result = value_spread(&registry.entries[i].function, registry, visiting);
                let _ = visiting.pop();
                assert(visiting@ == old(visiting)@);
                result
            },
            None => None,
        },
    }
}

/// Where one of the points is not finite, neither are all of them.
proof fn lemma_reach_of_all(
    points: Seq<SplinePoint>,
    reg: DensityRegistry,
    visiting: Seq<usize>,
    n: nat,
    m: nat,
)
    requires
        n <= m <= points.len(),
        point_reach(points, reg, visiting, n) is None,
    ensures
        point_reach(points, reg, visiting, m) is None,
    decreases m - n,
{
    if n < m {
        lemma_reach_of_all(points, reg, visiting, n, (m - 1) as nat);
    }
}

/// The spread of a spline's value, if it is shown to be finite.
fn spline_value_spread(
    spline: &CubicSpline,
    registry: &DensityRegistry,
    visiting: &mut Vec<usize>,
) -> (r: Option<Spread>)
    ensures
        r == spline_spread(*spline, *registry, old(visiting)@),
        sound_spread(r),
        final(visiting)@ == old(visiting)@,
    decreases functions::unvisited(old(visiting)@, registry@.len()), *spline,
{
    let count: usize = spline.points.len();
    let mut i: usize = 1;
    while i < count
        invariant
            1 <= i,
            i <= count || count == 0,
            count == spline.points@.len(),
            visiting@ == old(visiting)@,
            forall|j: int|
                0 <= j < i - 1 && j < count - 1 ==> !functions::at_least_bits(
                    (#[trigger] spline.points@[j]).location,
                    spline.points@[j + 1].location,
                ),
        decreases count - i,
    {
        if at_least(spline.points[i - 1].location, spline.points[i].location) {
            assert(functions::at_least_bits(
                spline.points@[i - 1].location,
                spline.points@[i - 1 + 1].location,
            ));
            return None;
        }
        i += 1;
    }
    let coordinate = match value_spread(&spline.coordinate, registry, visiting) {
        Some(coordinate) => coordinate,
        None => return None,
    };
    let mut reach: PointReach = PointReach { location: 0, derivative: 0, value: 0 };
    let mut k: usize = 0;
    while k < count
        invariant
            k <= count,
            count == spline.points@.len(),
            visiting@ == old(visiting)@,
            reach.wf(),
            point_reach(spline.points@, *registry, visiting@, k as nat) == Some(reach),
        decreases count - k,
    {
        let point = &spline.points[k];
        proof {
            assert(decreases_to!(*spline => spline.points));
            assert(decreases_to!(*spline => spline.points@[k as int]));
            assert(decreases_to!(*spline => spline.points@[k as int].value));
        }
        let location = spread_of_constant(point.location);
        let derivative = spread_of_constant(point.derivative);
        let value = match &point.value {
            SplineValue::Constant(v) => spread_of_constant(*v),
            SplineValue::Nested(nested) => {
                proof {
                    assert(decreases_to!(*spline => **nested));
                }
                spline_value_spread(nested, registry, visiting)
            },
        };
        match (location, derivative, value) {
            (Some(at), Some(slope), Some(height)) => {
                reach = PointReach {
                    location: larger_of(reach.location, widest_of(at)),
                    derivative: larger_of(reach.derivative, widest_of(slope)),
                    value: larger_of(reach.value, widest_of(height)),
                };
            },
            _ => {
                proof {
                    lemma_reach_of_all(
                        spline.points@,
                        *registry,
                        visiting@,
                        (k + 1) as nat,
                        count as nat,
                    );
                }
                return None;
            },
        }
        k += 1;
    }
    Some(spread_of_cubic(coordinate, reach))
}

/// Whether a subtree provably evaluates to a finite value at every position.
///
/// Needed because `0 * v` is a zero only when `v` is finite. Deliberately
/// structural and conservative: leaves whose sampler carries an explicit finite
/// bound are accepted, anything able to divide by a non-constant is rejected,
/// and so is a sum or a product whose operands may be large enough to overflow.
pub fn is_finite_valued(
    df: &DensityFunction,
    registry: &DensityRegistry,
    visiting: &mut Vec<usize>,
) -> (r: bool)
    ensures
        r == finite_of(*df, *registry, old(visiting)@),
        final(visiting)@ == old(visiting)@,
{
    value_spread(df, registry, visiting).is_some()
}

/// Whether a cubic spline evaluates finitely: finite coordinate, finite point
/// data, and strictly increasing locations so no segment divides by a
/// zero-width span.
pub fn spline_is_finite(
    spline: &CubicSpline,
    registry: &DensityRegistry,
    visiting: &mut Vec<usize>,
) -> (r: bool)
    ensures
        r == finite_spline(*spline, *registry, old(visiting)@),
        final(visiting)@ == old(visiting)@,
{
    spline_value_spread(spline, registry, visiting).is_some()
}

// ---------------------------------------------------------------------------
// Blended noise
// ---------------------------------------------------------------------------
/// A blended noise leaf occurs in the subtree, references followed.
pub open spec fn holds_blended(
    df: DensityFunction,
    reg: DensityRegistry,
    visiting: Seq<usize>,
) -> bool
    decreases functions::unvisited(visiting, reg@.len()), df, 0nat,
{
    match df {
        DensityFunction::BlendedNoise => true,
        DensityFunction::ShiftedNoise { noise, shift_x, shift_y, shift_z } => holds_blended(
            *shift_x,
            reg,
            visiting,
        ) || holds_blended(*shift_y, reg, visiting) || holds_blended(*shift_z, reg, visiting),
        DensityFunction::Marker { kind, wrapped } => holds_blended(*wrapped, reg, visiting),
        DensityFunction::BlendDensity { input } => holds_blended(*input, reg, visiting),
        DensityFunction::Clamp { input, min, max } => holds_blended(*input, reg, visiting),
        DensityFunction::Mapped { mapping, input } => holds_blended(*input, reg, visiting),
        DensityFunction::WeirdScaledSampler { input } => holds_blended(*input, reg, visiting),
        DensityFunction::TwoArgumentSimple { op, argument1, argument2, nonzero1, nonzero2 } =>
            holds_blended(*argument1, reg, visiting) || holds_blended(*argument2, reg, visiting),
        DensityFunction::RangeChoice { input, when_in_range, when_out_of_range } => holds_blended(
            *input,
            reg,
            visiting,
        ) || holds_blended(*when_in_range, reg, visiting) || holds_blended(
            *when_out_of_range,
            reg,
            visiting,
        ),
        DensityFunction::IntervalSelect { input, functions } => holds_blended(
            *input,
            reg,
            visiting,
        ) || any_blended(functions@, reg, visiting, functions@.len()),
        DensityFunction::FindTopSurface { density, upper_bound, lower_bound } => holds_blended(
            *density,
            reg,
            visiting,
        ) || holds_blended(*upper_bound, reg, visiting),
        DensityFunction::Spline { spline } => spline_blended(spline, reg, visiting),
        DensityFunction::Reference { id } => match functions::resolved(reg@, id@) {
            Some(i) => if visiting.contains(i as usize) {
                false
            } else {
                proof {
                    lemma_descend(reg, visiting, id@);
                }
                holds_blended(reg@[i].function, reg, visiting.push(i as usize))
            },
            None => false,
        },
        _ => false,
    }
}

/// One of the first `n` functions holds a blended noise leaf.
pub open spec fn any_blended(
    list: Seq<DensityFunction>,
    reg: DensityRegistry,
    visiting: Seq<usize>,
    n: nat,
) -> bool
    decreases functions::unvisited(visiting, reg@.len()), list, n,
{
    if n == 0 || n > list.len() {
        false
    } else {
        any_blended(list, reg, visiting, (n - 1) as nat) || holds_blended(
            list[n - 1],
            reg,
            visiting,
        )
    }
}

/// A spline's coordinate, or that of a nested one, holds a blended noise leaf.
pub open spec fn spline_blended(
    spline: CubicSpline,
    reg: DensityRegistry,
    visiting: Seq<usize>,
) -> bool
    decreases functions::unvisited(visiting, reg@.len()), spline, 0nat,
{
    holds_blended(*spline.coordinate, reg, visiting) || points_blended(
        spline.points@,
        reg,
        visiting,
        spline.points@.len(),
    )
}

/// One of the first `n` points nests a spline with a blended noise leaf.
pub open spec fn points_blended(
    points: Seq<SplinePoint>,
    reg: DensityRegistry,
    visiting: Seq<usize>,
    n: nat,
) -> bool
    decreases functions::unvisited(visiting, reg@.len()), points, n,
{
    if n == 0 || n > points.len() {
        false
    } else {
        points_blended(points, reg, visiting, (n - 1) as nat) || match points[n - 1].value {
            SplineValue::Constant(v) => false,
            SplineValue::Nested(nested) => spline_blended(*nested, reg, visiting),
        }
    }
}

/// Whether a blended noise leaf occurs in the subtree.
pub fn has_blended_noise(
    df: &DensityFunction,
    registry: &DensityRegistry,
    visiting: &mut Vec<usize>,
) -> (r: bool)
    ensures
        r == holds_blended(*df, *registry, old(visiting)@),
        final(visiting)@ == old(visiting)@,
    decreases functions::unvisited(old(visiting)@, registry@.len()), *df,
{
    match df {
        DensityFunction::BlendedNoise => true,
        DensityFunction::ShiftedNoise { noise: _, shift_x, shift_y, shift_z } => has_blended_noise(
            shift_x,
            registry,
            visiting,
        ) || has_blended_noise(shift_y, registry, visiting) || has_blended_noise(
            shift_z,
            registry,
            visiting,
        ),
        DensityFunction::Marker { kind: _, wrapped } => has_blended_noise(
            wrapped,
            registry,
            visiting,
        ),
        DensityFunction::BlendDensity { input } => has_blended_noise(input, registry, visiting),
        DensityFunction::Clamp { input, min: _, max: _ } => has_blended_noise(
            input,
            registry,
            visiting,
        ),
        DensityFunction::Mapped { mapping: _, input } => has_blended_noise(
            input,
            registry,
            visiting,
        ),
        DensityFunction::WeirdScaledSampler { input } => has_blended_noise(
            input,
            registry,
            visiting,
        ),
        DensityFunction::TwoArgumentSimple {
            op: _,
            argument1,
            argument2,
            nonzero1: _,
            nonzero2: _,
        } => has_blended_noise(argument1, registry, visiting) || has_blended_noise(
            argument2,
            registry,
            visiting,
        ),
        DensityFunction::RangeChoice { input, when_in_range, when_out_of_range } =>
            has_blended_noise(input, registry, visiting) || has_blended_noise(
            when_in_range,
            registry,
            visiting,
        ) || has_blended_noise(when_out_of_range, registry, visiting),
        DensityFunction::IntervalSelect { input, functions } => {
            let mut found = has_blended_noise(input, registry, visiting);
            let ghost in_input = found;
            let mut i: usize = 0;
            while i < functions.len()
                invariant
                    i <= functions.len(),
                    *df == (DensityFunction::IntervalSelect {
                        input: *input,
                        functions: *functions,
                    }),
                    visiting@ == old(visiting)@,
                    in_input == holds_blended(**input, *registry, visiting@),
                    found == (in_input || any_blended(
                        functions@,
                        *registry,
                        visiting@,
                        i as nat,
                    )),
                decreases functions.len() - i,
            {
                proof {
                    assert(decreases_to!(*df => df->functions));
                    assert(decreases_to!(*df => functions@[i as int]));
                }
                let here = has_blended_noise(&functions[i], registry, visiting);
                found = found || here;
                i += 1;
            }
            found
        },
        DensityFunction::FindTopSurface { density, upper_bound, lower_bound: _ } =>
            has_blended_noise(density, registry, visiting) || has_blended_noise(
            upper_bound,
            registry,
            visiting,
        ),
        DensityFunction::Spline { spline } => spline_has_blended_noise(spline, registry, visiting),
            DensityFunction::Reference { id } => match registry.lookup(id.as_str()) {
                Some(i) => {
                    if is_visiting(visiting, i) {
                        return false;
                    }
                    proof {
                        lemma_descend(*registry, visiting@, id@);
                    }
                    visiting.push(i);
                    let result = has_blended_noise(&registry.entries[i].function, registry, visiting);
                    let _ = visiting.pop();
                    assert(visiting@ == old(visiting)@);
                    result
                },
                None => false,
            },
        _ => false,
    }
}

fn spline_has_blended_noise(
    spline: &CubicSpline,
    registry: &DensityRegistry,
    visiting: &mut Vec<usize>,
) -> (r: bool)
    ensures
        r == spline_blended(*spline, *registry, old(visiting)@),
        final(visiting)@ == old(visiting)@,
    decreases functions::unvisited(old(visiting)@, registry@.len()), *spline,
{
    let mut found = has_blended_noise(&spline.coordinate, registry, visiting);
    let ghost in_coordinate = found;
    let mut k: usize = 0;
    while k < spline.points.len()
        invariant
            k <= spline.points@.len(),
            visiting@ == old(visiting)@,
            in_coordinate == holds_blended(*spline.coordinate, *registry, visiting@),
            found == (in_coordinate || points_blended(
                spline.points@,
                *registry,
                visiting@,
                k as nat,
            )),
        decreases spline.points@.len() - k,
    {
        proof {
            assert(decreases_to!(*spline => spline.points));
            assert(decreases_to!(*spline => spline.points@[k as int]));
            assert(decreases_to!(*spline => spline.points@[k as int].value));
        }
        let here = match &spline.points[k].value {
            SplineValue::Constant(_) => false,
            SplineValue::Nested(nested) => {
                proof {
                    assert(decreases_to!(*spline => **nested));
                }
                spline_has_blended_noise(nested, registry, visiting)
            },
        };
        found = found || here;
        k += 1;
    }
    found
}

/// How far a `BlendedNoise` leaf's influence reaches up a subtree.
#[derive(Clone, Copy, Debug, PartialEq, Eq, Structural)]
pub enum BlendedReach {
    /// No `BlendedNoise` occurs anywhere in the subtree, so its value never
    /// depends on one.
    Absent,
    /// `BlendedNoise` occurs below, but for every `y >= .0` this subtree
    /// evaluates to the same bits whatever value the blended noise takes.
    NeutralAtOrAbove(i32),
    /// `BlendedNoise` occurs below and for every `y >= .0` this subtree
    /// evaluates to a zero, but possibly a negative one, because the sign
    /// follows the annihilated operand. The zero must still be absorbed before
    /// the sign can be forgotten.
    SignedZeroAtOrAbove(i32),
    /// Nothing proven: the blended noise may reach the value at any `y`.
    Live,
}

/// The reach of an arbitrary pure function of two operands.
pub open spec fn combined(acc: BlendedReach, child: BlendedReach) -> BlendedReach {
    match (acc, child) {
        (BlendedReach::Absent, BlendedReach::Absent) => BlendedReach::Absent,
        (BlendedReach::Absent, BlendedReach::NeutralAtOrAbove(y)) => BlendedReach::NeutralAtOrAbove(
            y,
        ),
        (BlendedReach::NeutralAtOrAbove(y), BlendedReach::Absent) => BlendedReach::NeutralAtOrAbove(
            y,
        ),
        (BlendedReach::NeutralAtOrAbove(a), BlendedReach::NeutralAtOrAbove(b)) =>
            BlendedReach::NeutralAtOrAbove(if a >= b { a } else { b }),
        _ => BlendedReach::Live,
    }
}

/// The combined reach of the first `n` children.
pub open spec fn combined_all(children: Seq<BlendedReach>, n: nat) -> BlendedReach
    decreases n,
{
    if n == 0 {
        BlendedReach::Absent
    } else {
        combined(combined_all(children, (n - 1) as nat), children[n - 1])
    }
}

fn combine_two(acc: BlendedReach, child: BlendedReach) -> (r: BlendedReach)
    ensures
        r == combined(acc, child),
{
    match (acc, child) {
        (BlendedReach::Absent, BlendedReach::Absent) => BlendedReach::Absent,
        (BlendedReach::Absent, BlendedReach::NeutralAtOrAbove(y)) => BlendedReach::NeutralAtOrAbove(
            y,
        ),
        (BlendedReach::NeutralAtOrAbove(y), BlendedReach::Absent) => BlendedReach::NeutralAtOrAbove(
            y,
        ),
        (BlendedReach::NeutralAtOrAbove(a), BlendedReach::NeutralAtOrAbove(b)) =>
            BlendedReach::NeutralAtOrAbove(if a >= b { a } else { b }),
        _ => BlendedReach::Live,
    }
}

/// Combine child reaches for a node that is an arbitrary pure function of its
/// children.
///
/// `SignedZeroAtOrAbove` degrades to [`BlendedReach::Live`] here: only a sum
/// knows how to discharge the sign, and other operations can turn the two zeros
/// into different results.
pub fn combine_reach(children: &[BlendedReach]) -> (r: BlendedReach)
    ensures
        r == combined_all(children@, children@.len()),
{
    let mut acc = BlendedReach::Absent;
    let mut i: usize = 0;
    while i < children.len()
        invariant
            i <= children.len(),
            acc == combined_all(children@, i as nat),
        decreases children.len() - i,
    {
        acc = combine_two(acc, children[i]);
        i += 1;
    }
    acc
}

/// The reach of a product: a gradient that has slid to zero annihilates a
/// finite operand, whatever it is. Where neither operand holds blended noise,
/// there is none to annihilate.
pub open spec fn product_reach(
    gradient1: Option<i32>,
    finite2: bool,
    gradient2: Option<i32>,
    finite1: bool,
    reach1: BlendedReach,
    reach2: BlendedReach,
) -> BlendedReach {
    if reach1 is Absent && reach2 is Absent {
        BlendedReach::Absent
    } else if gradient1 is Some && finite2 {
        BlendedReach::SignedZeroAtOrAbove(gradient1->0)
    } else if gradient2 is Some && finite1 {
        BlendedReach::SignedZeroAtOrAbove(gradient2->0)
    } else {
        combined(combined(BlendedReach::Absent, reach1), reach2)
    }
}

/// The reach of a sum: a zero of unknown sign vanishes in a finite, non-zero
/// sibling that holds no blended noise.
pub open spec fn sum_reach(
    reach1: BlendedReach,
    reach2: BlendedReach,
    nonzero1: bool,
    nonzero2: bool,
) -> BlendedReach {
    if reach1 is SignedZeroAtOrAbove && reach2 is Absent && nonzero2 {
        BlendedReach::NeutralAtOrAbove(reach1->SignedZeroAtOrAbove_0)
    } else if reach2 is SignedZeroAtOrAbove && reach1 is Absent && nonzero1 {
        BlendedReach::NeutralAtOrAbove(reach2->SignedZeroAtOrAbove_0)
    } else {
        combined(combined(BlendedReach::Absent, reach1), reach2)
    }
}

/// How far blended noise reaches up a subtree.
pub open spec fn reach_of(
    df: DensityFunction,
    reg: DensityRegistry,
    visiting: Seq<usize>,
) -> BlendedReach
    decreases functions::unvisited(visiting, reg@.len()), df, 0nat,
{
    match df {
        DensityFunction::BlendedNoise => BlendedReach::Live,
        DensityFunction::Constant { value } => BlendedReach::Absent,
        DensityFunction::YClampedGradient { from_y, to_y, from_value, to_value } =>
            BlendedReach::Absent,
        DensityFunction::Noise { noise } => BlendedReach::Absent,
        DensityFunction::ShiftA { noise } => BlendedReach::Absent,
        DensityFunction::ShiftB { noise } => BlendedReach::Absent,
        DensityFunction::Shift { noise } => BlendedReach::Absent,
        DensityFunction::EndIslands => BlendedReach::Absent,
        DensityFunction::BlendAlpha => BlendedReach::Absent,
        DensityFunction::BlendOffset => BlendedReach::Absent,
        DensityFunction::Marker { kind, wrapped } => reach_of(*wrapped, reg, visiting),
        DensityFunction::BlendDensity { input } => reach_of(*input, reg, visiting),
        DensityFunction::Clamp { input, min, max } => combined(
            BlendedReach::Absent,
            reach_of(*input, reg, visiting),
        ),
        DensityFunction::Mapped { mapping, input } => combined(
            BlendedReach::Absent,
            reach_of(*input, reg, visiting),
        ),
        DensityFunction::WeirdScaledSampler { input } => combined(
            BlendedReach::Absent,
            reach_of(*input, reg, visiting),
        ),
        DensityFunction::ShiftedNoise { noise, shift_x, shift_y, shift_z } => combined(
            combined(
                combined(BlendedReach::Absent, reach_of(*shift_x, reg, visiting)),
                reach_of(*shift_y, reg, visiting),
            ),
            reach_of(*shift_z, reg, visiting),
        ),
        DensityFunction::RangeChoice { input, when_in_range, when_out_of_range } => combined(
            combined(
                combined(BlendedReach::Absent, reach_of(*input, reg, visiting)),
                reach_of(*when_in_range, reg, visiting),
            ),
            reach_of(*when_out_of_range, reg, visiting),
        ),
        DensityFunction::IntervalSelect { input, functions } => reach_of_list(
            combined(BlendedReach::Absent, reach_of(*input, reg, visiting)),
            functions@,
            reg,
            visiting,
            functions@.len(),
        ),
        // A spline's value depends on its coordinate in ways this analysis does
        // not model, and a top-surface search samples its density at many
        // levels, so neither can carry a per-level claim upward.
        DensityFunction::Spline { spline } => if spline_blended(spline, reg, Seq::empty()) {
            BlendedReach::Live
        } else {
            BlendedReach::Absent
        },
        DensityFunction::FindTopSurface { density, upper_bound, lower_bound } => if holds_blended(
            *density,
            reg,
            Seq::empty(),
        ) || holds_blended(*upper_bound, reg, Seq::empty()) {
            BlendedReach::Live
        } else {
            BlendedReach::Absent
        },
        DensityFunction::TwoArgumentSimple { op, argument1, argument2, nonzero1, nonzero2 } => {
            let reach1 = reach_of(*argument1, reg, visiting);
            let reach2 = reach_of(*argument2, reg, visiting);
            match op {
                TwoArgType::Mul => product_reach(
                    zeroing_level(*argument1, reg, visiting),
                    finite_of(*argument2, reg, visiting),
                    zeroing_level(*argument2, reg, visiting),
                    finite_of(*argument1, reg, visiting),
                    reach1,
                    reach2,
                ),
                TwoArgType::Add => sum_reach(reach1, reach2, nonzero1, nonzero2),
                _ => combined(combined(BlendedReach::Absent, reach1), reach2),
            }
        },
        DensityFunction::Reference { id } => match functions::resolved(reg@, id@) {
            Some(i) => if visiting.contains(i as usize) {
                BlendedReach::Live
            } else {
                proof {
                    lemma_descend(reg, visiting, id@);
                }
                reach_of(reg@[i].function, reg, visiting.push(i as usize))
            },
            None => BlendedReach::Live,
        },
    }
}

/// `acc` combined with the reach of each of the first `n` functions.
pub open spec fn reach_of_list(
    acc: BlendedReach,
    list: Seq<DensityFunction>,
    reg: DensityRegistry,
    visiting: Seq<usize>,
    n: nat,
) -> BlendedReach
    decreases functions::unvisited(visiting, reg@.len()), list, n,
{
    if n == 0 || n > list.len() {
        acc
    } else {
        combined(
            reach_of_list(acc, list, reg, visiting, (n - 1) as nat),
            reach_of(list[n - 1], reg, visiting),
        )
    }
}

/// Compute how far blended noise reaches up a single subtree.
pub fn blended_reach(
    df: &DensityFunction,
    registry: &DensityRegistry,
    visiting: &mut Vec<usize>,
) -> (r: BlendedReach)
    ensures
        r == reach_of(*df, *registry, old(visiting)@),
        final(visiting)@ == old(visiting)@,
    decreases functions::unvisited(old(visiting)@, registry@.len()), *df,
{
    match df {
        DensityFunction::BlendedNoise => BlendedReach::Live,
        DensityFunction::Marker { kind: _, wrapped } => blended_reach(wrapped, registry, visiting),
        DensityFunction::BlendDensity { input } => blended_reach(input, registry, visiting),
        DensityFunction::Clamp { input, min: _, max: _ } => combine_two(
            BlendedReach::Absent,
            blended_reach(input, registry, visiting),
        ),
        DensityFunction::Mapped { mapping: _, input } => combine_two(
            BlendedReach::Absent,
            blended_reach(input, registry, visiting),
        ),
        DensityFunction::WeirdScaledSampler { input } => combine_two(
            BlendedReach::Absent,
            blended_reach(input, registry, visiting),
        ),
        DensityFunction::ShiftedNoise { noise: _, shift_x, shift_y, shift_z } => {
            let x = blended_reach(shift_x, registry, visiting);
            let y = blended_reach(shift_y, registry, visiting);
            let z = blended_reach(shift_z, registry, visiting);
            combine_two(combine_two(combine_two(BlendedReach::Absent, x), y), z)
        },
        DensityFunction::RangeChoice { input, when_in_range, when_out_of_range } => {
            let chosen = blended_reach(input, registry, visiting);
            let inside = blended_reach(when_in_range, registry, visiting);
            let outside = blended_reach(when_out_of_range, registry, visiting);
            combine_two(combine_two(combine_two(BlendedReach::Absent, chosen), inside), outside)
        },
        DensityFunction::IntervalSelect { input, functions } => {
            let first = blended_reach(input, registry, visiting);
            let mut acc = combine_two(BlendedReach::Absent, first);
            let ghost start = acc;
            let mut i: usize = 0;
            while i < functions.len()
                invariant
                    i <= functions.len(),
                    *df == (DensityFunction::IntervalSelect {
                        input: *input,
                        functions: *functions,
                    }),
                    visiting@ == old(visiting)@,
                    acc == reach_of_list(start, functions@, *registry, visiting@, i as nat),
                decreases functions.len() - i,
            {
                proof {
                    assert(decreases_to!(*df => df->functions));
                    assert(decreases_to!(*df => functions@[i as int]));
                }
                let next = blended_reach(&functions[i], registry, visiting);
                acc = combine_two(acc, next);
                i += 1;
            }
            acc
        },
        DensityFunction::Spline { spline } => {
            let mut fresh: Vec<usize> = Vec::new();
            if spline_has_blended_noise(spline, registry, &mut fresh) {
                BlendedReach::Live
            } else {
                BlendedReach::Absent
            }
        },
        DensityFunction::FindTopSurface { density, upper_bound, lower_bound: _ } => {
            let mut fresh: Vec<usize> = Vec::new();
            if has_blended_noise(density, registry, &mut fresh) || has_blended_noise(
                upper_bound,
                registry,
                &mut fresh,
            ) {
                BlendedReach::Live
            } else {
                BlendedReach::Absent
            }
        },
        DensityFunction::TwoArgumentSimple { op, argument1, argument2, nonzero1, nonzero2 } => {
            let reach1 = blended_reach(argument1, registry, visiting);
            let reach2 = blended_reach(argument2, registry, visiting);
            match op {
                // `gradient * v` is a zero at and above the gradient's `to_y`
                // whenever `v` is finite, whatever `v` is, blended noise and
                // all. That is what erases the blended-noise contribution.
                TwoArgType::Mul => {
                    if reach1 == BlendedReach::Absent && reach2 == BlendedReach::Absent {
                        return BlendedReach::Absent;
                    }
                    if let Some(threshold) = zeroing_gradient_at_or_above(
                        argument1,
                        registry,
                        visiting,
                    ) {
                        if is_finite_valued(argument2, registry, visiting) {
                            return BlendedReach::SignedZeroAtOrAbove(threshold);
                        }
                    }
                    if let Some(threshold) = zeroing_gradient_at_or_above(
                        argument2,
                        registry,
                        visiting,
                    ) {
                        if is_finite_valued(argument1, registry, visiting) {
                            return BlendedReach::SignedZeroAtOrAbove(threshold);
                        }
                    }
                    combine_two(combine_two(BlendedReach::Absent, reach1), reach2)
                },
                // Adding a zero of either sign to a finite, non-zero value gives
                // exactly that value, which discharges the unknown sign of the
                // annihilated product.
                TwoArgType::Add => {
                    if let BlendedReach::SignedZeroAtOrAbove(threshold) = reach1 {
                        if reach2 == BlendedReach::Absent && *nonzero2 {
                            return BlendedReach::NeutralAtOrAbove(threshold);
                        }
                    }
                    if let BlendedReach::SignedZeroAtOrAbove(threshold) = reach2 {
                        if reach1 == BlendedReach::Absent && *nonzero1 {
                            return BlendedReach::NeutralAtOrAbove(threshold);
                        }
                    }
                    combine_two(combine_two(BlendedReach::Absent, reach1), reach2)
                },
                TwoArgType::Min => combine_two(combine_two(BlendedReach::Absent, reach1), reach2),
                TwoArgType::Max => combine_two(combine_two(BlendedReach::Absent, reach1), reach2),
            }
        },
            DensityFunction::Reference { id } => match registry.lookup(id.as_str()) {
                Some(i) => {
                    if is_visiting(visiting, i) {
                        return BlendedReach::Live;
                    }
                    proof {
                        lemma_descend(*registry, visiting@, id@);
                    }
                    visiting.push(i);
                    let result = blended_reach(&registry.entries[i].function, registry, visiting);
                    let _ = visiting.pop();
                    assert(visiting@ == old(visiting)@);
                    result
                },
                None => BlendedReach::Live,
            },
        _ => BlendedReach::Absent,
    }
}

/// The level from which no channel depends on blended noise: the highest among
/// the first `n` channels that hold some. Nothing where one stays live, or
/// where none holds any.
pub open spec fn irrelevance_level(
    inners: Seq<DensityFunction>,
    reg: DensityRegistry,
    n: nat,
) -> Option<i32>
    decreases n,
{
    if n == 0 {
        None
    } else {
        let before = irrelevance_level(inners, reg, (n - 1) as nat);
        match reach_of(inners[n - 1], reg, Seq::empty()) {
            BlendedReach::NeutralAtOrAbove(y) => match before {
                Some(seen) => Some(if seen >= y { seen } else { y }),
                None => Some(y),
            },
            _ => before,
        }
    }
}

/// The channel holds no blended noise, or is proven neutral from some level.
pub open spec fn settled(reach: BlendedReach) -> bool {
    reach is Absent || reach is NeutralAtOrAbove
}

/// The Y at or above which blended noise cannot affect *any* interpolated
/// channel, if there is one.
///
/// `inners` must be exactly the subtrees under the `Interpolated` markers that
/// are sampled at cell corners, because those are the only expressions that
/// read the column of blended noise.
///
/// Returns `None`, disabling the optimization, unless every channel either
/// contains no blended noise at all or provably ignores it at and above a
/// common Y. `None` reproduces the unoptimized behaviour exactly.
pub fn blended_noise_irrelevant_at_or_above_y(
    inners: &[DensityFunction],
    registry: &DensityRegistry,
) -> (r: Option<i32>)
    ensures
        r == if forall|i: int|
            0 <= i < inners@.len() ==> settled(
                reach_of(#[trigger] inners@[i], *registry, Seq::empty()),
            ) {
            irrelevance_level(inners@, *registry, inners@.len())
        } else {
            None
        },
{
    let mut threshold: Option<i32> = None;
    let mut i: usize = 0;
    while i < inners.len()
        invariant
            i <= inners@.len(),
            threshold == irrelevance_level(inners@, *registry, i as nat),
            forall|j: int|
                0 <= j < i ==> settled(reach_of(#[trigger] inners@[j], *registry, Seq::empty())),
        decreases inners@.len() - i,
    {
        let mut visiting: Vec<usize> = Vec::new();
        match blended_reach(&inners[i], registry, &mut visiting) {
            // No blended noise in this channel: no constraint on the column.
            BlendedReach::Absent => {},
            BlendedReach::NeutralAtOrAbove(y) => {
                threshold =
                match threshold {
                    Some(seen) => Some(if seen >= y { seen } else { y }),
                    None => Some(y),
                };
            },
            _ => {
                assert(!settled(reach_of(inners@[i as int], *registry, Seq::empty())));
                return None;
            },
        }
        i += 1;
    }
    threshold
}

} // verus!
