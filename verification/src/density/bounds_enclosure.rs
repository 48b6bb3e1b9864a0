//! What value bounds promise: they enclose every value.
//!
//! Values are bit patterns in their numeric order. Arithmetic on them is taken
//! as given, with the facts that correct rounding gives of it.

use crate::density::bounds;
use crate::density::bounds::BoundsPlan;
use crate::density::bounds_meaning;
use crate::density::bounds_meaning::{Domain, Sampling};
use crate::density::functions;
use crate::density::functions::{DensityFunction, DensityRegistry, MappedType, TwoArgType};
use vstd::prelude::*;

verus! {

pub const POS_INFINITY: u64 = 0x7ff0_0000_0000_0000;

pub const NEG_INFINITY: u64 = 0xfff0_0000_0000_0000;

pub const HALF: u64 = 0x3FE0_0000_0000_0000;

pub const QUARTER: u64 = 0x3FD0_0000_0000_0000;

/// Floating-point operations on bit patterns.
pub struct FloatOps {
    pub plus: spec_fn(u64, u64) -> u64,
    pub times: spec_fn(u64, u64) -> u64,
    pub reciprocal: spec_fn(u64) -> u64,
    /// The value clamped to one in magnitude, halved, less a 24th of its cube.
    pub squeeze: spec_fn(u64) -> u64,
    pub of_level: spec_fn(i32) -> u64,
}

/// Not a NaN.
pub open spec fn number(bits: u64) -> bool {
    !functions::nan_bits(bits)
}

/// The comparison `a <= b` of numbers.
pub open spec fn at_most(a: u64, b: u64) -> bool {
    number(a) && number(b) && functions::numeric_rank(a) <= functions::numeric_rank(b)
}

pub open spec fn infinite(bits: u64) -> bool {
    functions::magnitude(bits) == POS_INFINITY
}

/// The value with the other sign.
pub open spec fn negated(bits: u64) -> u64 {
    if bits < 0x8000_0000_0000_0000 {
        (bits + 0x8000_0000_0000_0000) as u64
    } else {
        (bits - 0x8000_0000_0000_0000) as u64
    }
}

/// The value without its sign.
pub open spec fn absolute(bits: u64) -> u64 {
    functions::magnitude(bits) as u64
}

pub open spec fn lesser(a: u64, b: u64) -> u64 {
    if functions::numeric_rank(a) <= functions::numeric_rank(b) {
        a
    } else {
        b
    }
}

pub open spec fn greater(a: u64, b: u64) -> u64 {
    if functions::numeric_rank(a) >= functions::numeric_rank(b) {
        a
    } else {
        b
    }
}

/// Rounding keeps the order of sums.
pub open spec fn plus_rounds(ops: FloatOps) -> bool {
    forall|a: u64, b: u64, c: u64, d: u64|
        #![trigger (ops.plus)(a, b), (ops.plus)(c, d)]
        at_most(a, c) && at_most(b, d) && number((ops.plus)(a, b)) && number((ops.plus)(c, d))
            ==> at_most((ops.plus)(a, b), (ops.plus)(c, d))
}

/// Products commute, and follow the sign of a factor.
pub open spec fn times_signs(ops: FloatOps) -> bool {
    &&& forall|a: u64, b: u64| #[trigger]
        number((ops.times)(a, b)) ==> (ops.times)(b, a) == (ops.times)(a, b)
    &&& forall|a: u64, b: u64|
        number(a) && number(b) && number((ops.times)(a, b)) ==> #[trigger] (ops.times)(
            a,
            negated(b),
        ) == negated((ops.times)(a, b))
}

/// A product is no number exactly where a zero meets an infinity; an infinity
/// times anything else is one.
pub open spec fn times_extremes(ops: FloatOps) -> bool {
    &&& forall|a: u64, b: u64|
        number(a) && number(b) ==> (number(#[trigger] (ops.times)(a, b)) <==> !(infinite(a)
            && functions::zero_bits(b)) && !(functions::zero_bits(a) && infinite(b)))
    &&& forall|a: u64, b: u64|
        infinite(a) && number(b) && functions::numeric_rank(b) > 0 ==> functions::numeric_rank(
            #[trigger] (ops.times)(a, b),
        ) == functions::numeric_rank(a)
    &&& forall|a: u64, b: u64|
        infinite(a) && number(b) && functions::numeric_rank(b) < 0 ==> functions::numeric_rank(
            #[trigger] (ops.times)(a, b),
        ) == -functions::numeric_rank(a)
}

/// Rounding keeps the order of products with a common factor, turned round
/// where that factor is negative.
pub open spec fn times_rounds(ops: FloatOps) -> bool {
    forall|a: u64, b: u64, c: u64|
        #![trigger (ops.times)(a, c), (ops.times)(b, c)]
        at_most(a, b) && number(c) && number((ops.times)(a, c)) && number((ops.times)(b, c)) ==> {
            &&& functions::numeric_rank(c) >= 0 ==> at_most((ops.times)(a, c), (ops.times)(b, c))
            &&& functions::numeric_rank(c) <= 0 ==> at_most((ops.times)(b, c), (ops.times)(a, c))
        }
}

/// Rounding keeps the order of products of non-negative factors.
pub open spec fn times_grows(ops: FloatOps) -> bool {
    forall|a: u64, b: u64, c: u64, d: u64|
        #![trigger (ops.times)(a, c), (ops.times)(b, d)]
        at_most(a, b) && at_most(c, d) && functions::numeric_rank(a) >= 0
            && functions::numeric_rank(c) >= 0 && number((ops.times)(a, c)) && number(
            (ops.times)(b, d),
        ) ==> 0 <= functions::numeric_rank((ops.times)(a, c)) && at_most(
            (ops.times)(a, c),
            (ops.times)(b, d),
        )
}

/// Reciprocals fall on either side of zero.
pub open spec fn reciprocal_rounds(ops: FloatOps) -> bool {
    forall|a: u64, b: u64|
        #![trigger (ops.reciprocal)(a), (ops.reciprocal)(b)]
        at_most(a, b) && (functions::numeric_rank(a) > 0 || functions::numeric_rank(b) < 0)
            ==> at_most((ops.reciprocal)(b), (ops.reciprocal)(a))
}

/// Squeezing keeps the order.
pub open spec fn squeeze_rounds(ops: FloatOps) -> bool {
    forall|a: u64, b: u64|
        #![trigger (ops.squeeze)(a), (ops.squeeze)(b)]
        at_most(a, b) ==> at_most((ops.squeeze)(a), (ops.squeeze)(b))
}

/// The operations are correctly rounded.
pub open spec fn rounds(ops: FloatOps) -> bool {
    &&& plus_rounds(ops)
    &&& times_signs(ops)
    &&& times_extremes(ops)
    &&& times_rounds(ops)
    &&& times_grows(ops)
    &&& reciprocal_rounds(ops)
    &&& squeeze_rounds(ops)
    &&& forall|level: i32| number(#[trigger] (ops.of_level)(level))
}

// ---------------------------------------------------------------------------
// Meaning of plans
// ---------------------------------------------------------------------------
/// A lower and an upper bound.
pub type Interval = (u64, u64);

pub open spec fn unbounded() -> Interval {
    (NEG_INFINITY, POS_INFINITY)
}

/// A mapped value.
pub open spec fn mapped_value(mapping: MappedType, v: u64, ops: FloatOps) -> u64 {
    match mapping {
        MappedType::Abs => absolute(v),
        MappedType::Square => (ops.times)(v, v),
        MappedType::Cube => (ops.times)((ops.times)(v, v), v),
        MappedType::HalfNegative => scaled_below_zero(v, HALF, ops),
        MappedType::QuarterNegative => scaled_below_zero(v, QUARTER, ops),
        MappedType::Invert => (ops.reciprocal)(v),
        MappedType::Squeeze => (ops.squeeze)(v),
    }
}

/// The value itself where it is positive, else that part of it.
pub open spec fn scaled_below_zero(v: u64, part: u64, ops: FloatOps) -> u64 {
    if functions::numeric_rank(v) > 0 {
        v
    } else {
        (ops.times)(v, part)
    }
}

/// The bounds of a mapped value.
pub open spec fn mapped_bounds(mapping: MappedType, b: Interval, ops: FloatOps) -> Interval {
    match mapping {
        MappedType::Abs => if functions::numeric_rank(b.0) >= 0 {
            b
        } else if functions::numeric_rank(b.1) <= 0 {
            (negated(b.1), negated(b.0))
        } else {
            (bounds::POS_0, greater(absolute(b.0), absolute(b.1)))
        },
        MappedType::Square => {
            let low = (ops.times)(b.0, b.0);
            let high = (ops.times)(b.1, b.1);
            if functions::numeric_rank(b.0) >= 0 {
                (low, high)
            } else if functions::numeric_rank(b.1) <= 0 {
                (high, low)
            } else {
                (bounds::POS_0, greater(low, high))
            }
        },
        MappedType::Invert => if functions::numeric_rank(b.0) > 0 || functions::numeric_rank(b.1)
            < 0 {
            (
                lesser((ops.reciprocal)(b.0), (ops.reciprocal)(b.1)),
                greater((ops.reciprocal)(b.0), (ops.reciprocal)(b.1)),
            )
        } else {
            unbounded()
        },
        // Over these the mapping never falls, so the ends suffice.
        _ => (mapped_value(mapping, b.0, ops), mapped_value(mapping, b.1, ops)),
    }
}

/// The bounds of a product: the extremes among the products of the ends.
pub open spec fn product_bounds(a: Interval, b: Interval, ops: FloatOps) -> Interval {
    let w = (ops.times)(a.0, b.0);
    let x = (ops.times)(a.0, b.1);
    let y = (ops.times)(a.1, b.0);
    let z = (ops.times)(a.1, b.1);
    if number(w) && number(x) && number(y) && number(z) {
        (lesser(lesser(w, x), lesser(y, z)), greater(greater(w, x), greater(y, z)))
    } else {
        unbounded()
    }
}

/// The bounds of a sum. A side without a number is not bounded.
pub open spec fn sum_bounds(a: Interval, b: Interval, ops: FloatOps) -> Interval {
    let low = (ops.plus)(a.0, b.0);
    let high = (ops.plus)(a.1, b.1);
    (
        if number(low) {
            low
        } else {
            NEG_INFINITY
        },
        if number(high) {
            high
        } else {
            POS_INFINITY
        },
    )
}

/// The bounds that a plan computes.
pub open spec fn bounds_of(plan: BoundsPlan, ops: FloatOps) -> Interval
    decreases plan,
{
    match plan {
        BoundsPlan::Unbounded => unbounded(),
        BoundsPlan::Between(low, high) => (low, high),
        BoundsPlan::Spanning(a, b) => (lesser(a, b), greater(a, b)),
        BoundsPlan::NonNegative => (bounds::POS_0, POS_INFINITY),
        BoundsPlan::Sum(a, b) => sum_bounds(bounds_of(*a, ops), bounds_of(*b, ops), ops),
        BoundsPlan::Product(a, b) => product_bounds(bounds_of(*a, ops), bounds_of(*b, ops), ops),
        BoundsPlan::Least(a, b) => {
            let (p, q) = (bounds_of(*a, ops), bounds_of(*b, ops));
            (lesser(p.0, q.0), lesser(p.1, q.1))
        },
        BoundsPlan::Greatest(a, b) => {
            let (p, q) = (bounds_of(*a, ops), bounds_of(*b, ops));
            (greater(p.0, q.0), greater(p.1, q.1))
        },
        BoundsPlan::Mapped(mapping, input) => mapped_bounds(mapping, bounds_of(*input, ops), ops),
        BoundsPlan::Hull(a, b) => {
            let (p, q) = (bounds_of(*a, ops), bounds_of(*b, ops));
            (lesser(p.0, q.0), greater(p.1, q.1))
        },
        BoundsPlan::Nothing => (POS_INFINITY, NEG_INFINITY),
        BoundsPlan::OrUnbounded(inner) => {
            let p = bounds_of(*inner, ops);
            if functions::numeric_rank(p.0) > functions::numeric_rank(p.1) {
                unbounded()
            } else {
                p
            }
        },
        BoundsPlan::FromLevel(level, upper) => {
            let low = (ops.of_level)(level);
            (low, greater(low, bounds_of(*upper, ops).1))
        },
    }
}

/// The value lies between the bounds.
pub open spec fn encloses(b: Interval, v: u64) -> bool {
    at_most(b.0, v) && at_most(v, b.1)
}

// ---------------------------------------------------------------------------
// Values
// ---------------------------------------------------------------------------
/// Every node of the domain has a number as its value, the one that the
/// operations give.
pub open spec fn computes(
    sampled: Sampling,
    domain: Domain,
    ops: FloatOps,
    reg: DensityRegistry,
) -> bool {
    forall|df: DensityFunction| #[trigger]
        domain(df) ==> number(sampled(df)) && bounds_meaning::transparent(df, sampled, reg)
            && computed(df, sampled, ops)
}

/// The node has the value that its operation gives. A gradient is clamped to its
/// ends, and a clamp has its ends in order.
pub open spec fn computed(df: DensityFunction, sampled: Sampling, ops: FloatOps) -> bool {
    let result = sampled(df);
    match df {
        DensityFunction::Constant { value } => result == value,
        DensityFunction::YClampedGradient { from_y, to_y, from_value, to_value } => number(
            from_value,
        ) && number(to_value) && encloses(
            (lesser(from_value, to_value), greater(from_value, to_value)),
            result,
        ),
        DensityFunction::TwoArgumentSimple { op, argument1, argument2, nonzero1, nonzero2 } => {
            let a = sampled(*argument1);
            let b = sampled(*argument2);
            match op {
                TwoArgType::Add => result == (ops.plus)(a, b),
                TwoArgType::Mul => result == (ops.times)(a, b),
                TwoArgType::Min => result == lesser(a, b),
                TwoArgType::Max => result == greater(a, b),
            }
        },
        DensityFunction::Mapped { mapping, input } => result == mapped_value(
            mapping,
            sampled(*input),
            ops,
        ),
        DensityFunction::Clamp { input, min, max } => encloses((min, max), result),
        DensityFunction::RangeChoice { input, when_in_range, when_out_of_range } => result
            == sampled(*when_in_range) || result == sampled(*when_out_of_range),
        DensityFunction::IntervalSelect { input, functions } => exists|i: int|
            0 <= i < functions@.len() && result == sampled(#[trigger] functions@[i]),
        DensityFunction::WeirdScaledSampler { input } => at_most(bounds::POS_0, result),
        DensityFunction::EndIslands => encloses((bounds::NEG_100, bounds::POS_80), result),
        DensityFunction::BlendAlpha => result == bounds::POS_1,
        DensityFunction::BlendOffset => result == bounds::POS_0,
        DensityFunction::FindTopSurface { density, upper_bound, lower_bound } => {
            let low = (ops.of_level)(lower_bound);
            at_most(low, result) && (at_most(result, low) || at_most(
                result,
                sampled(*upper_bound),
            ))
        },
        _ => true,
    }
}

// ---------------------------------------------------------------------------
// Enclosure
// ---------------------------------------------------------------------------
proof fn lemma_sum_encloses(a: Interval, b: Interval, v: u64, w: u64, ops: FloatOps)
    requires
        plus_rounds(ops),
        encloses(a, v),
        encloses(b, w),
        number((ops.plus)(v, w)),
    ensures
        encloses(sum_bounds(a, b, ops), (ops.plus)(v, w)),
{
    let r = (ops.plus)(v, w);
    let low = (ops.plus)(a.0, b.0);
    let high = (ops.plus)(a.1, b.1);
    assert(number(low) ==> at_most(low, r));
    assert(number(high) ==> at_most(r, high));
}

/// With one factor fixed, the product lies between the products of the ends.
proof fn lemma_factor_encloses(b: Interval, w: u64, c: u64, ops: FloatOps)
    requires
        times_rounds(ops),
        encloses(b, w),
        number(c),
        number((ops.times)(w, c)),
        number((ops.times)(b.0, c)),
        number((ops.times)(b.1, c)),
    ensures
        encloses(
            (
                lesser((ops.times)(b.0, c), (ops.times)(b.1, c)),
                greater((ops.times)(b.0, c), (ops.times)(b.1, c)),
            ),
            (ops.times)(w, c),
        ),
{
    let p = (ops.times)(b.0, c);
    let q = (ops.times)(b.1, c);
    let r = (ops.times)(w, c);
    if functions::numeric_rank(c) >= 0 {
        assert(at_most(p, r));
        assert(at_most(r, q));
    } else {
        assert(at_most(r, p));
        assert(at_most(q, r));
    }
}

proof fn lemma_extremes(bits: u64)
    ensures
        number(bits) ==> at_most(NEG_INFINITY, bits) && at_most(bits, POS_INFINITY),
        infinite(bits) ==> number(bits) && (functions::numeric_rank(bits)
            == functions::numeric_rank(POS_INFINITY) || functions::numeric_rank(bits)
            == functions::numeric_rank(NEG_INFINITY)),
{
}

/// Where an end is infinite and the other factor spans zero, the product of the
/// ends spans everything.
proof fn lemma_infinite_end(end: u64, b: Interval, ops: FloatOps)
    requires
        times_extremes(ops),
        infinite(end),
        number(b.0),
        number(b.1),
        functions::numeric_rank(b.0) < 0 < functions::numeric_rank(b.1),
    ensures
        functions::numeric_rank(lesser((ops.times)(end, b.0), (ops.times)(end, b.1)))
            == functions::numeric_rank(NEG_INFINITY),
        functions::numeric_rank(greater((ops.times)(end, b.0), (ops.times)(end, b.1)))
            == functions::numeric_rank(POS_INFINITY),
{
    lemma_extremes(end);
}

proof fn lemma_product_encloses(a: Interval, b: Interval, v: u64, w: u64, ops: FloatOps)
    requires
        rounds(ops),
        encloses(a, v),
        encloses(b, w),
        number((ops.times)(v, w)),
    ensures
        encloses(product_bounds(a, b, ops), (ops.times)(v, w)),
{
    let ll = (ops.times)(a.0, b.0);
    let lh = (ops.times)(a.0, b.1);
    let hl = (ops.times)(a.1, b.0);
    let hh = (ops.times)(a.1, b.1);
    let r = (ops.times)(v, w);
    lemma_extremes(r);
    if number(ll) && number(lh) && number(hl) && number(hh) {
        let p = (ops.times)(a.0, w);
        let q = (ops.times)(a.1, w);
        if !number(p) {
            lemma_end_meets_zero(a.0, b, w, ops);
            lemma_infinite_end(a.0, b, ops);
        } else if !number(q) {
            lemma_end_meets_zero(a.1, b, w, ops);
            lemma_infinite_end(a.1, b, ops);
        } else {
            lemma_factor_encloses(a, v, w, ops);
            assert((ops.times)(w, a.0) == p);
            assert((ops.times)(w, a.1) == q);
            assert((ops.times)(b.0, a.0) == ll);
            assert((ops.times)(b.1, a.0) == lh);
            assert((ops.times)(b.0, a.1) == hl);
            assert((ops.times)(b.1, a.1) == hh);
            lemma_factor_encloses(b, w, a.0, ops);
            lemma_factor_encloses(b, w, a.1, ops);
        }
    }
}

/// If an end times an enclosed factor is no number while it is with the
/// factor's own ends, the end is infinite and the factor spans zero.
proof fn lemma_end_meets_zero(end: u64, b: Interval, w: u64, ops: FloatOps)
    requires
        times_extremes(ops),
        number(end),
        encloses(b, w),
        !number((ops.times)(end, w)),
        number((ops.times)(end, b.0)),
        number((ops.times)(end, b.1)),
    ensures
        infinite(end),
        functions::numeric_rank(b.0) < 0 < functions::numeric_rank(b.1),
{
    if functions::zero_bits(end) {
        assert(infinite(w));
        lemma_extremes(b.0);
        lemma_extremes(b.1);
        assert(infinite(b.0) || infinite(b.1));
    }
}

proof fn lemma_negated(bits: u64)
    ensures
        functions::numeric_rank(negated(bits)) == -functions::numeric_rank(bits),
        number(negated(bits)) == number(bits),
        functions::numeric_rank(absolute(bits)) == functions::magnitude(bits),
        number(absolute(bits)) == number(bits),
        functions::numeric_rank(bits) < 0 ==> absolute(bits) == negated(bits),
        negated(negated(bits)) == bits,
{
}

/// A square is a number, that of the magnitude.
proof fn lemma_square(v: u64, ops: FloatOps)
    requires
        rounds(ops),
        number(v),
    ensures
        number((ops.times)(v, v)),
        (ops.times)(negated(v), negated(v)) == (ops.times)(v, v),
        functions::numeric_rank((ops.times)(v, v)) >= 0,
{
    let n = negated(v);
    let square = (ops.times)(v, v);
    lemma_negated(v);
    assert(number(square));
    lemma_negated(square);
    assert((ops.times)(v, n) == negated(square));
    assert((ops.times)(n, v) == negated(square));
    assert((ops.times)(n, n) == negated(negated(square)));
    if functions::numeric_rank(v) >= 0 {
        assert(0 <= functions::numeric_rank(square));
    } else {
        assert(0 <= functions::numeric_rank((ops.times)(n, n)));
    }
}

/// Squares grow with the magnitude.
proof fn lemma_squares_grow(a: u64, b: u64, ops: FloatOps)
    requires
        rounds(ops),
        number(a),
        number(b),
        functions::magnitude(a) <= functions::magnitude(b),
    ensures
        at_most((ops.times)(a, a), (ops.times)(b, b)),
{
    lemma_square(a, ops);
    lemma_square(b, ops);
    lemma_negated(a);
    lemma_negated(b);
    let x = if functions::numeric_rank(a) < 0 {
        negated(a)
    } else {
        a
    };
    let y = if functions::numeric_rank(b) < 0 {
        negated(b)
    } else {
        b
    };
    assert(at_most(x, y));
    assert((ops.times)(x, x) == (ops.times)(a, a));
    assert((ops.times)(y, y) == (ops.times)(b, b));
}

pub open spec fn cube(v: u64, ops: FloatOps) -> u64 {
    (ops.times)((ops.times)(v, v), v)
}

/// A cube is a number with the sign of its root.
proof fn lemma_cube(v: u64, ops: FloatOps)
    requires
        rounds(ops),
        number(v),
    ensures
        number(cube(v, ops)),
        number(cube(negated(v), ops)),
        functions::numeric_rank(cube(negated(v), ops)) == -functions::numeric_rank(cube(v, ops)),
        functions::numeric_rank(v) >= 0 ==> functions::numeric_rank(cube(v, ops)) >= 0,
{
    let square = (ops.times)(v, v);
    lemma_square(v, ops);
    lemma_negated(v);
    if infinite(square) && functions::zero_bits(v) {
        lemma_zero_square(v, ops);
    }
    if functions::zero_bits(square) && infinite(v) {
        lemma_extremes(v);
        if functions::numeric_rank(v) > 0 {
            assert(functions::numeric_rank((ops.times)(v, v)) == functions::numeric_rank(v));
        } else {
            assert(functions::numeric_rank((ops.times)(v, v)) == -functions::numeric_rank(v));
        }
    }
    assert(number((ops.times)(square, v)));
    assert((ops.times)(square, negated(v)) == negated((ops.times)(square, v)));
    lemma_negated((ops.times)(square, v));
}

/// A zero squared is no infinity.
proof fn lemma_zero_square(v: u64, ops: FloatOps)
    requires
        rounds(ops),
        functions::zero_bits(v),
    ensures
        !infinite((ops.times)(v, v)),
{
    // The two zeros are equal in order, so the square is at most its negation.
    let n = negated(v);
    lemma_negated(v);
    lemma_square(v, ops);
    let square = (ops.times)(v, v);
    assert(at_most(v, n) && at_most(n, v));
    assert((ops.times)(v, n) == negated(square));
    lemma_negated(square);
    assert((ops.times)(n, v) == negated(square));
    assert(at_most((ops.times)(v, v), (ops.times)(n, v)));
}

/// Cubes grow.
proof fn lemma_cubes_grow(a: u64, b: u64, ops: FloatOps)
    requires
        rounds(ops),
        at_most(a, b),
    ensures
        at_most(cube(a, ops), cube(b, ops)),
{
    lemma_cube(a, ops);
    lemma_cube(b, ops);
    lemma_negated(a);
    lemma_negated(b);
    if functions::numeric_rank(a) >= 0 {
        lemma_squares_grow(a, b, ops);
        lemma_square(a, ops);
        assert(at_most((ops.times)((ops.times)(a, a), a), (ops.times)((ops.times)(b, b), b)));
    } else if functions::numeric_rank(b) <= 0 {
        let (x, y) = (negated(b), negated(a));
        lemma_squares_grow(x, y, ops);
        lemma_square(x, ops);
        assert(at_most((ops.times)((ops.times)(x, x), x), (ops.times)((ops.times)(y, y), y)));
    } else {
        lemma_cube(negated(a), ops);
    }
}

/// Scaling what is below zero keeps the order.
proof fn lemma_scaled_grows(a: u64, b: u64, part: u64, ops: FloatOps)
    requires
        rounds(ops),
        at_most(a, b),
        part == HALF || part == QUARTER,
    ensures
        at_most(scaled_below_zero(a, part, ops), scaled_below_zero(b, part, ops)),
{
    assert(functions::numeric_rank(part) > 0 && number(part) && !infinite(part));
    if functions::numeric_rank(a) <= 0 {
        let low = (ops.times)(a, part);
        assert(number(low));
        if functions::numeric_rank(b) <= 0 {
            assert(number((ops.times)(b, part)));
        } else {
            // The product with a zero or less is a zero or less.
            let n = negated(a);
            lemma_negated(a);
            assert(number((ops.times)(n, part)));
            assert((ops.times)(part, n) == (ops.times)(n, part));
            assert((ops.times)(part, a) == low);
            assert((ops.times)(part, n) == negated(low));
            lemma_negated(low);
            assert(0 <= functions::numeric_rank((ops.times)(n, part)));
        }
    }
}

proof fn lemma_mapped_encloses(mapping: MappedType, b: Interval, v: u64, ops: FloatOps)
    requires
        rounds(ops),
        encloses(b, v),
        number(mapped_value(mapping, v, ops)),
    ensures
        encloses(mapped_bounds(mapping, b, ops), mapped_value(mapping, v, ops)),
{
    lemma_negated(b.0);
    lemma_negated(b.1);
    lemma_negated(v);
    lemma_extremes(mapped_value(mapping, v, ops));
    match mapping {
        MappedType::Abs => {},
        MappedType::Square => {
            lemma_square(v, ops);
            lemma_square(b.0, ops);
            lemma_square(b.1, ops);
            if functions::numeric_rank(b.0) >= 0 {
                lemma_squares_grow(b.0, v, ops);
                lemma_squares_grow(v, b.1, ops);
            } else if functions::numeric_rank(b.1) <= 0 {
                lemma_squares_grow(b.1, v, ops);
                lemma_squares_grow(v, b.0, ops);
            } else if functions::numeric_rank(v) >= 0 {
                lemma_squares_grow(v, b.1, ops);
            } else {
                lemma_squares_grow(v, b.0, ops);
            }
        },
        MappedType::Cube => {
            lemma_cubes_grow(b.0, v, ops);
            lemma_cubes_grow(v, b.1, ops);
        },
        MappedType::HalfNegative => {
            lemma_scaled_grows(b.0, v, HALF, ops);
            lemma_scaled_grows(v, b.1, HALF, ops);
        },
        MappedType::QuarterNegative => {
            lemma_scaled_grows(b.0, v, QUARTER, ops);
            lemma_scaled_grows(v, b.1, QUARTER, ops);
        },
        MappedType::Invert => {
            if functions::numeric_rank(b.0) > 0 || functions::numeric_rank(b.1) < 0 {
                let (x, y) = ((ops.reciprocal)(b.0), (ops.reciprocal)(b.1));
                let r = (ops.reciprocal)(v);
                assert(at_most(r, x));
                assert(at_most(y, r));
            }
        },
        MappedType::Squeeze => {
            let r = (ops.squeeze)(v);
            assert(at_most((ops.squeeze)(b.0), r));
            assert(at_most(r, (ops.squeeze)(b.1)));
        },
    }
}

proof fn lemma_hull_encloses(
    list: Seq<DensityFunction>,
    reg: DensityRegistry,
    visiting: Seq<usize>,
    n: nat,
    ops: FloatOps,
    sampled: Sampling,
    domain: Domain,
)
    requires
        bounds_meaning::closed_domain(domain, reg),
        forall|i: int| 0 <= i < n ==> domain(#[trigger] list[i]),
        rounds(ops),
        computes(sampled, domain, ops, reg),
        n <= list.len(),
    ensures
        number(bounds_of(bounds::hull_plan(list, reg, visiting, n), ops).0),
        number(bounds_of(bounds::hull_plan(list, reg, visiting, n), ops).1),
        forall|i: int|
            0 <= i < n ==> encloses(
                bounds_of(bounds::hull_plan(list, reg, visiting, n), ops),
                sampled(#[trigger] list[i]),
            ),
    decreases functions::unvisited(visiting, reg@.len()), list, n,
{
    if n > 0 {
        lemma_hull_encloses(list, reg, visiting, (n - 1) as nat, ops, sampled, domain);
        bounds_enclose_every_value(list[n - 1], reg, visiting, ops, sampled, domain);
        let p = bounds_of(bounds::hull_plan(list, reg, visiting, (n - 1) as nat), ops);
        let q = bounds_of(bounds::plan_of(list[n - 1], reg, visiting), ops);
        assert(bounds_of(bounds::hull_plan(list, reg, visiting, n), ops) == (
            lesser(p.0, q.0),
            greater(p.1, q.1),
        ));
    }
}

/// The bounds that are computed for a subtree enclose its value, whatever the
/// position: `lower <= value <= upper`, a side that cannot be bounded being
/// infinite.
pub proof fn bounds_enclose_every_value(
    df: DensityFunction,
    reg: DensityRegistry,
    visiting: Seq<usize>,
    ops: FloatOps,
    sampled: Sampling,
    domain: Domain,
)
    requires
        bounds_meaning::closed_domain(domain, reg),
        domain(df),
        rounds(ops),
        computes(sampled, domain, ops, reg),
    ensures
        encloses(bounds_of(bounds::plan_of(df, reg, visiting), ops), sampled(df)),
    decreases functions::unvisited(visiting, reg@.len()), df, 0nat,
{
    let v = sampled(df);
    let plan = bounds::plan_of(df, reg, visiting);
    assert(bounds_meaning::operands_in(df, domain, reg));
    assert(number(v) && computed(df, sampled, ops));
    assert(bounds_meaning::transparent(df, sampled, reg));
    lemma_extremes(v);
    match df {
        DensityFunction::Reference { id } => {
            if let Some(i) = functions::resolved(reg@, id@) {
                if !visiting.contains(i as usize) {
                    bounds::lemma_descend(reg, visiting, id@);
                    bounds_enclose_every_value(
                        reg@[i].function,
                        reg,
                        visiting.push(i as usize),
                        ops,
                        sampled,
                        domain,
                    );
                }
            }
        },
        DensityFunction::TwoArgumentSimple { op, argument1, argument2, nonzero1, nonzero2 } => {
            bounds_enclose_every_value(*argument1, reg, visiting, ops, sampled, domain);
            bounds_enclose_every_value(*argument2, reg, visiting, ops, sampled, domain);
            let a = bounds_of(bounds::plan_of(*argument1, reg, visiting), ops);
            let b = bounds_of(bounds::plan_of(*argument2, reg, visiting), ops);
            match op {
                TwoArgType::Add => {
                    lemma_sum_encloses(a, b, sampled(*argument1), sampled(*argument2), ops);
                },
                TwoArgType::Mul => {
                    lemma_product_encloses(a, b, sampled(*argument1), sampled(*argument2), ops);
                },
                TwoArgType::Min => {
                    assert(bounds_of(plan, ops) == (lesser(a.0, b.0), lesser(a.1, b.1)));
                },
                TwoArgType::Max => {
                    assert(bounds_of(plan, ops) == (greater(a.0, b.0), greater(a.1, b.1)));
                },
            }
        },
        DensityFunction::Mapped { mapping, input } => {
            bounds_enclose_every_value(*input, reg, visiting, ops, sampled, domain);
            let b = bounds_of(bounds::plan_of(*input, reg, visiting), ops);
            assert(bounds_of(plan, ops) == mapped_bounds(mapping, b, ops));
            lemma_mapped_encloses(mapping, b, sampled(*input), ops);
        },
        DensityFunction::RangeChoice { input, when_in_range, when_out_of_range } => {
            bounds_enclose_every_value(*when_in_range, reg, visiting, ops, sampled, domain);
            bounds_enclose_every_value(*when_out_of_range, reg, visiting, ops, sampled, domain);
        },
        DensityFunction::IntervalSelect { input, functions } => {
            lemma_hull_encloses(
                functions@,
                reg,
                visiting,
                functions@.len(),
                ops,
                sampled,
                domain,
            );
        },
        DensityFunction::BlendDensity { input } => {
            bounds_enclose_every_value(*input, reg, visiting, ops, sampled, domain);
        },
        DensityFunction::Marker { kind, wrapped } => {
            bounds_enclose_every_value(*wrapped, reg, visiting, ops, sampled, domain);
        },
        DensityFunction::FindTopSurface { density, upper_bound, lower_bound } => {
            bounds_enclose_every_value(*upper_bound, reg, visiting, ops, sampled, domain);
        },
        _ => {},
    }
}

} // verus!
