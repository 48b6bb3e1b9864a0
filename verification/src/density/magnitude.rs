//! Bounds on what double-precision arithmetic gives.
//!
//! Values are bit patterns; a magnitude is the pattern of one that is not
//! negative. Amounts are counted in units of the smallest positive value.

use vstd::prelude::*;

verus! {

/// The largest finite magnitude.
pub const MOST: u64 = 0x7fef_ffff_ffff_ffff;

/// The sign bit.
pub const SIGN: u64 = 0x8000_0000_0000_0000;

/// The smallest normal magnitude, which is also its number of units.
pub const UNIT: u64 = 0x10_0000_0000_0000;

/// The value of a magnitude, in units of the smallest one.
pub open spec fn value(magnitude: int) -> int {
    if magnitude < UNIT {
        magnitude
    } else {
        (UNIT + magnitude % UNIT as int) * vstd::arithmetic::power2::pow2((magnitude / UNIT as int - 1) as nat)
    }
}

/// The smallest number of units that is rounded to infinity: half a step above
/// the largest finite value.
pub open spec fn overflow() -> int {
    0x3f_ffff_ffff_ffff * (vstd::arithmetic::power2::pow2(2044) as int)
}

/// The magnitude is the least whose value is `units` or more, or the largest
/// finite one if there is none: what is `units` at most, rounded to the nearest
/// value, does not exceed it unless it overflows.
pub open spec fn is_bound(magnitude: int, units: int) -> bool {
    &&& 0 <= magnitude <= MOST
    &&& value(magnitude) >= units || magnitude == MOST
    &&& magnitude == 0 || value(magnitude - 1) < units
}

/// How far apart two numbers of units are.
pub open spec fn distance(a: int, b: int) -> int {
    if a >= b {
        a - b
    } else {
        b - a
    }
}

/// A bound on what is rounded from `units` at most, unless that may overflow.
pub open spec fn bound_on(units: int) -> Option<u64> {
    if units >= overflow() {
        None
    } else {
        Some(choose|magnitude: u64| is_bound(magnitude as int, units))
    }
}

/// The magnitude is the greatest whose value is `units` or less.
pub open spec fn is_floor(magnitude: int, units: int) -> bool {
    &&& 0 <= magnitude <= MOST
    &&& value(magnitude) <= units
    &&& magnitude == MOST || units < value(magnitude + 1)
}

/// A bound below on what is rounded from `units` at least.
pub open spec fn floor_on(units: int) -> u64 {
    choose|magnitude: u64| is_floor(magnitude as int, units)
}

/// Division, rounded up.
pub open spec fn ceiling(n: int, d: int) -> int {
    (n + d - 1) / d
}

/// The pattern with the other sign.
pub open spec fn flipped(bits: u64) -> u64 {
    if bits < SIGN {
        (bits + SIGN) as u64
    } else {
        (bits - SIGN) as u64
    }
}

/// The pattern without its sign.
pub open spec fn unsigned(bits: u64) -> u64 {
    if bits < SIGN {
        bits
    } else {
        (bits - SIGN) as u64
    }
}

/// A finite value in units.
pub open spec fn amount(bits: u64) -> int {
    if bits < SIGN {
        value(bits as int)
    } else {
        -value(bits - SIGN)
    }
}

/// The least value that is not less than `units`, unless that may overflow.
pub open spec fn least_above(units: int) -> Option<u64> {
    if units >= 0 {
        bound_on(units)
    } else {
        Some(flipped(floor_on(-units)))
    }
}

/// The pattern with the other sign, if there is one.
pub open spec fn flipped_if_any(bits: Option<u64>) -> Option<u64> {
    match bits {
        Some(b) => Some(flipped(b)),
        None => None,
    }
}

/// A bound above on the sum of two values, unless it may overflow.
pub open spec fn sum_above(a: u64, b: u64) -> Option<u64> {
    least_above(amount(a) + amount(b))
}

/// A bound below on the sum of two values, unless it may overflow.
pub open spec fn sum_below(a: u64, b: u64) -> Option<u64> {
    flipped_if_any(sum_above(flipped(a), flipped(b)))
}

/// A bound above on the product of two values, unless it may overflow.
pub open spec fn product_above(a: u64, b: u64) -> Option<u64> {
    let magnitudes = value(unsigned(a) as int) * value(unsigned(b) as int);
    if (a < SIGN) == (b < SIGN) {
        bound_on(ceiling(magnitudes, vstd::arithmetic::power2::pow2(1074) as int))
    } else {
        Some(flipped(floor_on(magnitudes / (vstd::arithmetic::power2::pow2(1074) as int))))
    }
}

/// A bound below on the product of two values, unless it may overflow.
pub open spec fn product_below(a: u64, b: u64) -> Option<u64> {
    flipped_if_any(product_above(flipped(a), b))
}

proof fn lemma_double(e: nat)
    ensures
        vstd::arithmetic::power2::pow2(e + 1) == 2 * vstd::arithmetic::power2::pow2(e),
        vstd::arithmetic::power2::pow2(e) > 0,
{
    vstd::arithmetic::power2::lemma_pow2_unfold(e + 1);
    vstd::arithmetic::power2::lemma_pow2_pos(e);
}

/// A significand and an exponent, as one magnitude.
proof fn lemma_encoded(significand: int, exponent: int)
    requires
        0 <= significand <= 2 * UNIT,
        0 <= exponent,
        exponent > 0 ==> significand >= UNIT,
    ensures
        value(exponent * UNIT + significand) == significand * vstd::arithmetic::power2::pow2(exponent as nat),
{
    let m = exponent * UNIT + significand;
    lemma_double(exponent as nat);
    vstd::arithmetic::power2::lemma2_to64();
    if significand < UNIT {
        assert(m == significand);
    } else if significand < 2 * UNIT {
        assert(m == (exponent + 1) * UNIT + (significand - UNIT));
        vstd::arithmetic::div_mod::lemma_fundamental_div_mod_converse(
            m,
            UNIT as int,
            exponent + 1,
            significand - UNIT,
        );
    } else {
        assert(m == (exponent + 2) * UNIT);
        vstd::arithmetic::div_mod::lemma_fundamental_div_mod_converse(
            m,
            UNIT as int,
            exponent + 2,
            0,
        );
        assert(value(m) == UNIT * vstd::arithmetic::power2::pow2((exponent + 1) as nat));
        assert(UNIT * (2 * vstd::arithmetic::power2::pow2(exponent as nat)) == 2 * UNIT * vstd::arithmetic::power2::pow2(exponent as nat))
            by (nonlinear_arith);
    }
}

/// A magnitude has a significand and an exponent.
proof fn lemma_parts(magnitude: int) -> (r: (int, int))
    requires
        0 <= magnitude,
    ensures
        0 <= r.0 < 2 * UNIT,
        0 <= r.1,
        r.1 > 0 ==> r.0 >= UNIT,
        magnitude == r.1 * UNIT + r.0,
        value(magnitude) == r.0 * vstd::arithmetic::power2::pow2(r.1 as nat),
{
    if magnitude < UNIT {
        lemma_encoded(magnitude, 0);
        (magnitude, 0)
    } else {
        let field = magnitude / UNIT as int;
        let r = (UNIT + magnitude % UNIT as int, field - 1);
        assert(magnitude == field * UNIT + magnitude % UNIT as int);
        assert(r.1 * UNIT + r.0 == magnitude) by (nonlinear_arith)
            requires
                magnitude == field * UNIT + magnitude % UNIT as int,
                r.0 == UNIT + magnitude % UNIT as int,
                r.1 == field - 1,
        ;
        lemma_encoded(r.0, r.1);
        r
    }
}

/// A larger magnitude has a larger value.
proof fn lemma_step(magnitude: int)
    requires
        0 <= magnitude,
    ensures
        value(magnitude) < value(magnitude + 1),
{
    let (s, e) = lemma_parts(magnitude);
    lemma_encoded(s + 1, e);
    lemma_double(e as nat);
    assert((s + 1) * vstd::arithmetic::power2::pow2(e as nat) == s * vstd::arithmetic::power2::pow2(e as nat) + vstd::arithmetic::power2::pow2(e as nat)) by (nonlinear_arith);
}

proof fn lemma_monotone(a: int, b: int)
    requires
        0 <= a <= b,
    ensures
        value(a) <= value(b),
    decreases b - a,
{
    if a < b {
        lemma_monotone(a, b - 1);
        lemma_step(b - 1);
    }
}

/// There is one bound.
proof fn lemma_one_bound(magnitude: int, units: int)
    requires
        is_bound(magnitude, units),
        units < overflow(),
    ensures
        bound_on(units) == Some(magnitude as u64),
{
    assert(is_bound(magnitude as u64 as int, units));
    let other = bound_on(units)->0 as int;
    assert(is_bound(other, units));
    if other < magnitude {
        lemma_monotone(other, magnitude - 1);
    } else if magnitude < other {
        lemma_monotone(magnitude, other - 1);
    }
}

/// There is one floor.
proof fn lemma_one_floor(magnitude: int, units: int)
    requires
        is_floor(magnitude, units),
    ensures
        floor_on(units) == magnitude,
{
    assert(is_floor(magnitude as u64 as int, units));
    let other = floor_on(units) as int;
    assert(is_floor(other, units));
    if other < magnitude {
        lemma_monotone(other + 1, magnitude);
    } else if magnitude < other {
        lemma_monotone(magnitude + 1, other);
    }
}

/// The bound on a number of units that is not exact in one magnitude: `t` counts
/// the whole multiples of two to the `e`, and `rest` tells whether more is left.
proof fn lemma_rounded_up(t: int, e: int, rest: bool, units: int, m: int)
    requires
        2 * UNIT <= t < 4 * UNIT,
        0 <= e <= 2044,
        t * vstd::arithmetic::power2::pow2(e as nat) <= units < (t + 1) * vstd::arithmetic::power2::pow2(e as nat),
        rest <==> units != t * vstd::arithmetic::power2::pow2(e as nat),
        units < overflow(),
        m == (e + 1) * UNIT + t / 2 + (if t % 2 == 1 || rest {
            1int
        } else {
            0
        }),
    ensures
        m <= MOST + 1,
        m <= MOST ==> is_bound(m, units),
        m > MOST ==> is_bound(MOST as int, units),
{
    let p = vstd::arithmetic::power2::pow2(e as nat) as int;
    let q = t / 2 + (if t % 2 == 1 || rest {
        1int
    } else {
        0
    });
    lemma_double(e as nat);
    lemma_encoded(q, e + 1);
    assert(m == (e + 1) * UNIT + q);
    assert(q * (2 * p) == (2 * q) * p) by (nonlinear_arith);
    if t % 2 == 1 || rest {
        assert((t + 1) * p <= (2 * q) * p) by (nonlinear_arith)
            requires
                t + 1 <= 2 * q,
                p > 0,
        ;
    } else {
        assert(2 * q == t);
    }
    assert(value(m) >= units);
    if q > UNIT {
        lemma_encoded(q - 1, e + 1);
        assert(m - 1 == (e + 1) * UNIT + (q - 1));
        assert((q - 1) * (2 * p) == (2 * (q - 1)) * p) by (nonlinear_arith);
        if t % 2 == 0 && rest {
            assert(2 * (q - 1) == t);
        } else {
            assert((2 * (q - 1)) * p < t * p) by (nonlinear_arith)
                requires
                    2 * (q - 1) < t,
                    p > 0,
            ;
        }
    } else {
        lemma_encoded(2 * UNIT - 1, e);
        assert(m - 1 == e * UNIT + (2 * UNIT - 1)) by (nonlinear_arith)
            requires
                m == (e + 1) * UNIT + q,
                q == UNIT,
        ;
        assert((2 * UNIT - 1) * p < t * p) by (nonlinear_arith)
            requires
                t == 2 * UNIT,
                p > 0,
        ;
    }
    assert(value(m - 1) < units);
    assert((e + 1) * UNIT <= 2045 * UNIT) by (nonlinear_arith)
        requires
            e <= 2044,
    ;
    if m > MOST {
        lemma_step(m - 2);
    }
}

/// An amount cut to at most 54 binary digits: the whole multiples of a power of
/// two, its exponent, and whether more is left.
struct Cut {
    multiples: u64,
    exponent: u32,
    rest: bool,
}

impl Cut {
    /// The cut is that of the amount, which does not overflow.
    spec fn of(self, units: int) -> bool {
        let t = self.multiples as int;
        let p = vstd::arithmetic::power2::pow2(self.exponent as nat) as int;
        &&& t < 4 * UNIT
        &&& self.exponent <= 2044
        &&& t >= 2 * UNIT || (self.exponent == 0 && !self.rest)
        &&& t * p <= units < (t + 1) * p
        &&& self.rest <==> units != t * p
        &&& units < overflow()
    }
}

/// Cuts an amount, given as a multiple of a power of two, unless it overflows.
fn cut(units: u128, exponent: u32) -> (r: Option<Cut>)
    requires
        units < 0x4000_0000_0000_0000_0000_0000_0000_0000,
        exponent <= 5000,
    ensures
        match r {
            Some(made) => made.of(units * vstd::arithmetic::power2::pow2(exponent as nat)),
            None => units * vstd::arithmetic::power2::pow2(exponent as nat) >= overflow(),
        },
{
    let ghost n: int = units * vstd::arithmetic::power2::pow2(exponent as nat);
    let mut t: u128 = units;
    let mut e: u32 = exponent;
    while t < 0x20_0000_0000_0000 && e > 0
        invariant
            t < 0x4000_0000_0000_0000_0000_0000_0000_0000,
            e <= 5000,
            n == t * vstd::arithmetic::power2::pow2(e as nat),
        decreases e,
    {
        proof {
            lemma_double((e - 1) as nat);
            assert(t * (2 * vstd::arithmetic::power2::pow2((e - 1) as nat)) == (t * 2) * vstd::arithmetic::power2::pow2((e - 1) as nat))
                by (nonlinear_arith);
        }
        t = t * 2;
        e = e - 1;
    }
    let mut rest: bool = false;
    proof {
        lemma_double(e as nat);
        assert((t + 1) * vstd::arithmetic::power2::pow2(e as nat) == t * vstd::arithmetic::power2::pow2(e as nat) + vstd::arithmetic::power2::pow2(e as nat)) by (nonlinear_arith);
    }
    while t >= 0x40_0000_0000_0000
        invariant
            e <= 5000,
            n == units * vstd::arithmetic::power2::pow2(exponent as nat),
            t >= 0x20_0000_0000_0000 || (e == 0 && !rest),
            t * vstd::arithmetic::power2::pow2(e as nat) <= n < (t + 1) * vstd::arithmetic::power2::pow2(e as nat),
            rest <==> n != t * vstd::arithmetic::power2::pow2(e as nat),
        decreases t,
    {
        let ghost p: int = vstd::arithmetic::power2::pow2(e as nat) as int;
        if e >= 2044 {
            proof {
                lemma_overflows(t as int, e as int, n);
            }
            return None;
        }
        let half: u128 = t / 2;
        proof {
            lemma_double(e as nat);
            assert(half * (2 * p) == (2 * half) * p) by (nonlinear_arith);
            assert((half + 1) * (2 * p) == (2 * half + 2) * p) by (nonlinear_arith);
            assert((2 * half) * p <= t * p && (t + 1) * p <= (2 * half + 2) * p)
                by (nonlinear_arith)
                requires
                    2 * half <= t <= 2 * half + 1,
                    p > 0,
            ;
            if t % 2 == 1 {
                assert((2 * half) * p < t * p) by (nonlinear_arith)
                    requires
                        2 * half < t,
                        p > 0,
                ;
            }
        }
        rest = rest || t % 2 == 1;
        t = half;
        e = e + 1;
    }
    if t >= 0x20_0000_0000_0000 && (e > 2044 || (e == 2044 && t == 0x3f_ffff_ffff_ffff)) {
        proof {
            lemma_overflows(t as int, e as int, n);
        }
        return None;
    }
    proof {
        lemma_fits(t as int, e as int, n);
    }
    Some(Cut { multiples: t as u64, exponent: e, rest })
}

/// A short amount is a magnitude.
proof fn lemma_short(made: Cut, units: int)
    requires
        made.of(units),
        made.multiples < 2 * UNIT,
    ensures
        units == made.multiples,
        is_bound(units, units),
        is_floor(units, units),
{
    let t = made.multiples as int;
    vstd::arithmetic::power2::lemma2_to64();
    assert(t * vstd::arithmetic::power2::pow2(0) == t) by (nonlinear_arith)
        requires
            vstd::arithmetic::power2::pow2(0) == 1,
    ;
    assert(value(t) == t) by {
        lemma_encoded(t, 0);
    }
    if t > 0 {
        lemma_step(t - 1);
    }
    lemma_step(t);
}

/// The bound above on an amount, given as a multiple of a power of two.
fn encoded(units: u128, exponent: u32) -> (r: Option<u64>)
    requires
        units < 0x4000_0000_0000_0000_0000_0000_0000_0000,
        exponent <= 5000,
    ensures
        r == bound_on(units * vstd::arithmetic::power2::pow2(exponent as nat)),
        r is Some ==> r->0 <= MOST,
{
    let ghost n: int = units * vstd::arithmetic::power2::pow2(exponent as nat);
    let made = match cut(units, exponent) {
        Some(made) => made,
        None => return None,
    };
    let t: u64 = made.multiples;
    if t < 0x20_0000_0000_0000 {
        proof {
            lemma_short(made, n);
            lemma_one_bound(n, n);
        }
        return Some(t);
    }
    let e: u64 = made.exponent as u64;
    assert((e + 1) * UNIT <= 2045 * UNIT) by (nonlinear_arith)
        requires
            e <= 2044,
    ;
    let m: u64 = (e + 1) * UNIT + t / 2 + if t % 2 == 1 || made.rest {
        1
    } else {
        0
    };
    proof {
        lemma_rounded_up(t as int, e as int, made.rest, n, m as int);
        lemma_one_bound(
            if m > MOST {
                MOST as int
            } else {
                m as int
            },
            n,
        );
    }
    if m > MOST {
        Some(MOST)
    } else {
        Some(m)
    }
}

/// The bound below on an amount, given as a multiple of a power of two.
fn encoded_below(units: u128, exponent: u32) -> (r: u64)
    requires
        units < 0x4000_0000_0000_0000_0000_0000_0000_0000,
        exponent <= 5000,
    ensures
        r == floor_on(units * vstd::arithmetic::power2::pow2(exponent as nat)),
        r <= MOST,
{
    let ghost n: int = units * vstd::arithmetic::power2::pow2(exponent as nat);
    let made = match cut(units, exponent) {
        Some(made) => made,
        None => {
            proof {
                lemma_exact(MOST as int);
                lemma_powers(2044, 2044);
                lemma_one_floor(MOST as int, n);
            }
            return MOST;
        },
    };
    let t: u64 = made.multiples;
    if t < 0x20_0000_0000_0000 {
        proof {
            lemma_short(made, n);
            lemma_one_floor(n, n);
        }
        return t;
    }
    let e: u64 = made.exponent as u64;
    assert((e + 1) * UNIT <= 2045 * UNIT) by (nonlinear_arith)
        requires
            e <= 2044,
    ;
    let m: u64 = (e + 1) * UNIT + t / 2;
    proof {
        let p = vstd::arithmetic::power2::pow2(e as nat) as int;
        let q = t as int / 2;
        lemma_double(e as nat);
        lemma_encoded(q, e + 1);
        lemma_encoded(q + 1, e + 1);
        assert(m + 1 == (e + 1) * UNIT + (q + 1));
        assert(q * (2 * p) == (2 * q) * p) by (nonlinear_arith);
        assert((q + 1) * (2 * p) == (2 * q + 2) * p) by (nonlinear_arith);
        assert((2 * q) * p <= t * p && (t + 1) * p <= (2 * q + 2) * p) by (nonlinear_arith)
            requires
                2 * q <= t <= 2 * q + 1,
                p > 0,
        ;
        lemma_one_floor(m as int, n);
    }
    m
}

proof fn lemma_powers(a: nat, b: nat)
    requires
        a <= b,
    ensures
        0 < vstd::arithmetic::power2::pow2(a) <= vstd::arithmetic::power2::pow2(b),
{
    vstd::arithmetic::power2::lemma_pow2_pos(a);
    if a < b {
        vstd::arithmetic::power2::lemma_pow2_strictly_increases(a, b);
    }
}

/// Enough whole multiples of a large power of two overflow.
proof fn lemma_overflows(t: int, e: int, n: int)
    requires
        t * vstd::arithmetic::power2::pow2(e as nat) <= n,
        (e >= 2044 && t >= 4 * UNIT - 1) || (e >= 2045 && t >= 2 * UNIT),
    ensures
        n >= overflow(),
{
    let least = vstd::arithmetic::power2::pow2(2044) as int;
    let p = vstd::arithmetic::power2::pow2(e as nat) as int;
    lemma_powers(2044, e as nat);
    if t >= 4 * UNIT - 1 {
        assert(0x3f_ffff_ffff_ffff * least <= t * p) by (nonlinear_arith)
            requires
                t >= 0x3f_ffff_ffff_ffff,
                p >= least,
                least > 0,
        ;
    } else {
        lemma_powers(2045, e as nat);
        lemma_double(2044);
        assert(0x3f_ffff_ffff_ffff * least <= t * p) by (nonlinear_arith)
            requires
                t >= 0x20_0000_0000_0000,
                p >= 2 * least,
                least > 0,
        ;
    }
}

/// Few whole multiples of a power of two that is not large do not overflow.
proof fn lemma_fits(t: int, e: int, n: int)
    requires
        0 <= t < 4 * UNIT,
        0 <= e <= 2044,
        e == 2044 ==> t < 4 * UNIT - 1,
        n < (t + 1) * vstd::arithmetic::power2::pow2(e as nat),
    ensures
        n < overflow(),
{
    let least = vstd::arithmetic::power2::pow2(2044) as int;
    let p = vstd::arithmetic::power2::pow2(e as nat) as int;
    lemma_powers(e as nat, 2044);
    if e == 2044 {
        assert((t + 1) * p <= 0x3f_ffff_ffff_ffff * least) by (nonlinear_arith)
            requires
                t + 1 <= 0x3f_ffff_ffff_ffff,
                p == least,
                least > 0,
        ;
    } else {
        lemma_powers(e as nat, 2043);
        lemma_double(2043);
        assert((t + 1) * p <= 0x3f_ffff_ffff_ffff * least) by (nonlinear_arith)
            requires
                t + 1 <= 0x40_0000_0000_0000,
                2 * p <= least,
                0 < p,
        ;
    }
}

/// The significand and the exponent of a magnitude.
fn parts(magnitude: u64) -> (r: (u64, u32))
    requires
        magnitude <= MOST,
    ensures
        r.0 < 2 * UNIT,
        r.1 <= 2045,
        r.1 > 0 ==> r.0 >= UNIT,
        magnitude == r.1 * UNIT + r.0,
        value(magnitude as int) == r.0 * vstd::arithmetic::power2::pow2(r.1 as nat),
{
    let r: (u64, u32) = if magnitude < UNIT {
        (magnitude, 0)
    } else {
        (UNIT + magnitude % UNIT, (magnitude / UNIT - 1) as u32)
    };
    proof {
        lemma_encoded(r.0 as int, r.1 as int);
    }
    r
}

/// A magnitude is both bounds of its own value.
proof fn lemma_exact(magnitude: int)
    requires
        0 <= magnitude <= MOST,
    ensures
        value(magnitude) <= value(MOST as int),
        value(MOST as int) + vstd::arithmetic::power2::pow2(2044) == overflow(),
        bound_on(value(magnitude)) == Some(magnitude as u64),
        floor_on(value(magnitude)) == magnitude,
{
    lemma_monotone(magnitude, MOST as int);
    lemma_encoded(2 * UNIT - 1, 2045);
    lemma_double(2044);
    assert(2045 * UNIT + (2 * UNIT - 1) == MOST);
    if magnitude > 0 {
        lemma_step(magnitude - 1);
    }
    lemma_one_bound(magnitude, value(magnitude));
    lemma_step(magnitude);
    lemma_one_floor(magnitude, value(magnitude));
}

/// The bound above or below on an amount.
pub open spec fn rounded(units: int, below: bool) -> Option<u64> {
    if below {
        Some(floor_on(units))
    } else {
        bound_on(units)
    }
}

/// Next to a much larger magnitude, a small one tells only that the sum lies
/// above it, or the difference below.
proof fn lemma_far_apart(a: int, b: int, sa: int, ea: int, sb: int, eb: int)
    requires
        0 < b <= a <= MOST,
        UNIT <= sa < 2 * UNIT,
        0 <= sb < 2 * UNIT,
        0 <= eb,
        eb + 60 < ea <= 2045,
        a == ea * UNIT + sa,
        value(a) == sa * vstd::arithmetic::power2::pow2(ea as nat),
        value(b) == sb * vstd::arithmetic::power2::pow2(eb as nat),
    ensures
        bound_on(value(a) + value(b)) == Some(
            if a == MOST {
                MOST
            } else {
                (a + 1) as u64
            },
        ),
        floor_on(value(a) + value(b)) == a,
        bound_on(value(a) - value(b)) == Some(a as u64),
        floor_on(value(a) - value(b)) == a - 1,
{
    let p = vstd::arithmetic::power2::pow2(eb as nat) as int;
    let step = vstd::arithmetic::power2::pow2((ea - 1) as nat) as int;
    let units = value(a) + value(b);
    lemma_exact(a);
    lemma_monotone(1, b);
    vstd::arithmetic::power2::lemma_pow2_adds(eb as nat, 53);
    vstd::arithmetic::power2::lemma2_to64_rest();
    lemma_powers(eb as nat, eb as nat);
    lemma_powers((eb + 53) as nat, (ea - 1) as nat);
    lemma_powers((ea - 1) as nat, 2044);
    lemma_double((ea - 1) as nat);
    assert(value(b) < step) by {
        assert(sb * p < p * (2 * UNIT)) by (nonlinear_arith)
            requires
                0 <= sb < 2 * UNIT,
                p > 0,
        ;
    }
    lemma_encoded(sa + 1, ea);
    assert((sa + 1) * (2 * step) == sa * (2 * step) + 2 * step) by (nonlinear_arith);
    assert(ea * UNIT + (sa + 1) == a + 1);
    assert(value(a - 1) <= value(a) - step) by {
        if sa > UNIT {
            lemma_encoded(sa - 1, ea);
            assert((sa - 1) * (2 * step) == sa * (2 * step) - 2 * step) by (nonlinear_arith);
            assert(ea * UNIT + (sa - 1) == a - 1);
        } else {
            lemma_encoded(2 * UNIT - 1, ea - 1);
            assert((2 * UNIT - 1) * step == UNIT * (2 * step) - step) by (nonlinear_arith);
            assert(a - 1 == (ea - 1) * UNIT + (2 * UNIT - 1)) by (nonlinear_arith)
                requires
                    a == ea * UNIT + sa,
                    sa == UNIT,
            ;
        }
    }
    if a == MOST {
        lemma_one_bound(a, units);
    } else {
        lemma_one_bound(a + 1, units);
    }
    lemma_one_floor(a, units);
    lemma_one_bound(a, value(a) - value(b));
    lemma_one_floor(a - 1, value(a) - value(b));
}

/// The sum of two magnitudes, or their difference, the first not the smaller.
fn ordered(a: u64, b: u64, subtract: bool, below: bool) -> (r: Option<u64>)
    requires
        b <= a <= MOST,
    ensures
        r == rounded(
            if subtract {
                value(a as int) - value(b as int)
            } else {
                value(a as int) + value(b as int)
            },
            below,
        ),
        r is Some ==> r->0 <= MOST,
{
    if b == 0 {
        proof {
            lemma_exact(a as int);
        }
        return Some(a);
    }
    let (sa, ea) = parts(a);
    let (sb, eb) = parts(b);
    proof {
        assert(ea >= eb) by (nonlinear_arith)
            requires
                ea * UNIT + sa >= eb * UNIT + sb,
                sa < 2 * UNIT,
                eb > 0 ==> sb >= UNIT,
                UNIT > 0,
                ea >= 0,
        ;
    }
    if ea - eb > 60 {
        proof {
            lemma_far_apart(a as int, b as int, sa as int, ea as int, sb as int, eb as int);
        }
        return Some(
            if subtract == below {
                if subtract {
                    a - 1
                } else if a == MOST {
                    MOST
                } else {
                    a + 1
                }
            } else {
                a
            },
        );
    }
    let mut t: u128 = sa as u128;
    let mut e: u32 = ea;
    proof {
        vstd::arithmetic::power2::lemma2_to64();
        assert(sa * vstd::arithmetic::power2::pow2(0) == sa) by (nonlinear_arith)
            requires
                vstd::arithmetic::power2::pow2(0) == 1,
        ;
    }
    while e > eb
        invariant
            eb <= e <= ea,
            ea - eb <= 60,
            sa < 2 * UNIT,
            t == sa * vstd::arithmetic::power2::pow2((ea - e) as nat),
            t * vstd::arithmetic::power2::pow2(e as nat) == value(a as int),
            t <= 0x2_0000_0000_0000_0000_0000_0000_0000,
        decreases e,
    {
        let ghost p: int = vstd::arithmetic::power2::pow2((e - 1) as nat) as int;
        let ghost w: int = vstd::arithmetic::power2::pow2((ea - e) as nat) as int;
        proof {
            lemma_double((e - 1) as nat);
            lemma_double((ea - e) as nat);
            lemma_powers((ea - e + 1) as nat, 60);
            vstd::arithmetic::power2::lemma2_to64_rest();
            assert(t * (2 * p) == (t * 2) * p) by (nonlinear_arith);
            assert(sa * (2 * w) == (sa * w) * 2) by (nonlinear_arith);
            assert(sa * (2 * w) <= 0x20_0000_0000_0000 * 0x1000_0000_0000_0000) by (nonlinear_arith)
                requires
                    0 <= sa < 0x20_0000_0000_0000,
                    0 <= 2 * w <= 0x1000_0000_0000_0000,
            ;
        }
        t = t * 2;
        e = e - 1;
    }
    proof {
        let p = vstd::arithmetic::power2::pow2(eb as nat) as int;
        lemma_monotone(b as int, a as int);
        lemma_powers(eb as nat, eb as nat);
        assert((t + sb) * p == t * p + sb * p) by (nonlinear_arith);
        assert((t - sb) * p == t * p - sb * p) by (nonlinear_arith);
        assert(t >= sb) by (nonlinear_arith)
            requires
                t * p >= sb * p,
                p > 0,
        ;
    }
    let units: u128 = if subtract {
        t - sb as u128
    } else {
        t + sb as u128
    };
    if below {
        Some(encoded_below(units, eb))
    } else {
        encoded(units, eb)
    }
}

pub(crate) fn flip(bits: u64) -> (r: u64)
    ensures
        r == flipped(bits),
        unsigned(r) == unsigned(bits),
        unsigned(bits) <= MOST ==> amount(r) == -amount(bits),
{
    if bits < SIGN {
        bits + SIGN
    } else {
        bits - SIGN
    }
}

pub(crate) fn without_sign(bits: u64) -> (r: u64)
    ensures
        r == unsigned(bits),
{
    if bits < SIGN {
        bits
    } else {
        bits - SIGN
    }
}

/// The finite values, as patterns.
pub open spec fn in_range(bits: u64) -> bool {
    unsigned(bits) <= MOST
}

pub(crate) fn flip_if_any(bits: Option<u64>) -> (r: Option<u64>)
    requires
        bits is Some ==> in_range(bits->0),
    ensures
        r == flipped_if_any(bits),
        r is Some ==> in_range(r->0),
{
    match bits {
        Some(b) => Some(flip(b)),
        None => None,
    }
}

/// A bound above on the sum of two values, unless it may overflow.
pub fn sum_at_most(a: u64, b: u64) -> (r: Option<u64>)
    requires
        in_range(a),
        in_range(b),
    ensures
        r == sum_above(a, b),
        r is Some ==> in_range(r->0),
{
    let (large, small) = if without_sign(a) >= without_sign(b) {
        (a, b)
    } else {
        (b, a)
    };
    let (m, n) = (without_sign(large), without_sign(small));
    let subtract = (large < SIGN) != (small < SIGN);
    // A sum of zero counts as positive.
    let positive = large < SIGN || m == 0 || (subtract && m == n);
    proof {
        if m > 0 {
            lemma_monotone(0, m - 1);
            lemma_step(m - 1);
        }
        if m > n {
            lemma_monotone(n as int, m - 1);
        }
    }
    let r = ordered(m, n, subtract, !positive);
    if positive {
        r
    } else {
        flip_if_any(r)
    }
}

/// A bound below on the sum of two values, unless it may overflow.
pub fn sum_at_least(a: u64, b: u64) -> (r: Option<u64>)
    requires
        in_range(a),
        in_range(b),
    ensures
        r == sum_below(a, b),
        r is Some ==> in_range(r->0),
{
    flip_if_any(sum_at_most(flip(a), flip(b)))
}

/// The quotients of what lies between `q` and `q + 1` divisors.
proof fn lemma_quotients(n: int, d: int, q: int)
    requires
        d > 0,
        q * d <= n < (q + 1) * d,
    ensures
        n / d == q,
        ceiling(n, d) == if n == q * d {
            q
        } else {
            q + 1
        },
{
    assert((q + 1) * d == q * d + d) by (nonlinear_arith);
    vstd::arithmetic::div_mod::lemma_fundamental_div_mod_converse(n, d, q, n - q * d);
    if n == q * d {
        vstd::arithmetic::div_mod::lemma_fundamental_div_mod_converse(n + d - 1, d, q, d - 1);
    } else {
        vstd::arithmetic::div_mod::lemma_fundamental_div_mod_converse(
            n + d - 1,
            d,
            q + 1,
            n - q * d - 1,
        );
    }
}

/// The product of two magnitudes.
fn product(a: u64, b: u64, below: bool) -> (r: Option<u64>)
    requires
        a <= MOST,
        b <= MOST,
    ensures
        r == if below {
            Some(floor_on(value(a as int) * value(b as int) / (vstd::arithmetic::power2::pow2(1074) as int)))
        } else {
            bound_on(ceiling(value(a as int) * value(b as int), vstd::arithmetic::power2::pow2(1074) as int))
        },
        r is Some ==> r->0 <= MOST,
{
    let (sa, ea) = parts(a);
    let (sb, eb) = parts(b);
    let ghost x: int = value(a as int) * value(b as int);
    let ghost d: int = vstd::arithmetic::power2::pow2(1074) as int;
    assert(sa * sb < 0x400_0000_0000_0000_0000_0000_0000) by (nonlinear_arith)
        requires
            0 <= sa < 0x20_0000_0000_0000,
            0 <= sb < 0x20_0000_0000_0000,
    ;
    let mut t: u128 = sa as u128 * sb as u128;
    let mut e: u32 = ea + eb;
    proof {
        let pa = vstd::arithmetic::power2::pow2(ea as nat) as int;
        let pb = vstd::arithmetic::power2::pow2(eb as nat) as int;
        vstd::arithmetic::power2::lemma_pow2_adds(ea as nat, eb as nat);
        assert((sa * pa) * (sb * pb) == (sa * sb) * (pa * pb)) by (nonlinear_arith);
        assert(x == t * vstd::arithmetic::power2::pow2(e as nat));
        lemma_powers(1074, 1074);
    }
    if e >= 1074 {
        proof {
            let p = vstd::arithmetic::power2::pow2((e - 1074) as nat) as int;
            vstd::arithmetic::power2::lemma_pow2_adds((e - 1074) as nat, 1074);
            assert(t * (p * d) == (t * p) * d) by (nonlinear_arith);
            assert((t * p + 1) * d == (t * p) * d + d) by (nonlinear_arith);
            lemma_quotients(x, d, t * p);
        }
        return if below {
            Some(encoded_below(t, e - 1074))
        } else {
            encoded(t, e - 1074)
        };
    }
    let mut rest: bool = false;
    proof {
        let p = vstd::arithmetic::power2::pow2(e as nat) as int;
        lemma_double(e as nat);
        assert((t + 1) * p == t * p + p) by (nonlinear_arith);
    }
    while e < 1074
        invariant
            e <= 1074,
            t < 0x400_0000_0000_0000_0000_0000_0000,
            t * vstd::arithmetic::power2::pow2(e as nat) <= x < (t + 1) * vstd::arithmetic::power2::pow2(e as nat),
            rest <==> x != t * vstd::arithmetic::power2::pow2(e as nat),
        decreases 1074 - e,
    {
        let half: u128 = t / 2;
        proof {
            let p = vstd::arithmetic::power2::pow2(e as nat) as int;
            lemma_double(e as nat);
            assert(half * (2 * p) == (2 * half) * p) by (nonlinear_arith);
            assert((half + 1) * (2 * p) == (2 * half + 2) * p) by (nonlinear_arith);
            assert((2 * half) * p <= t * p && (t + 1) * p <= (2 * half + 2) * p)
                by (nonlinear_arith)
                requires
                    2 * half <= t <= 2 * half + 1,
                    p > 0,
            ;
            if t % 2 == 1 {
                assert((2 * half) * p < t * p) by (nonlinear_arith)
                    requires
                        2 * half < t,
                        p > 0,
                ;
            }
        }
        rest = rest || t % 2 == 1;
        t = half;
        e = e + 1;
    }
    let units: u128 = if rest && !below {
        t + 1
    } else {
        t
    };
    proof {
        lemma_quotients(x, d, t as int);
        vstd::arithmetic::power2::lemma2_to64();
        assert(units * vstd::arithmetic::power2::pow2(0) == units) by (nonlinear_arith)
            requires
                vstd::arithmetic::power2::pow2(0) == 1,
        ;
    }
    if below {
        Some(encoded_below(units, 0))
    } else {
        encoded(units, 0)
    }
}

/// A bound above on the product of two values, unless it may overflow.
pub fn product_at_most(a: u64, b: u64) -> (r: Option<u64>)
    requires
        in_range(a),
        in_range(b),
    ensures
        r == product_above(a, b),
        r is Some ==> in_range(r->0),
        r is Some && (a < SIGN) == (b < SIGN) ==> r->0 <= MOST,
{
    let positive = (a < SIGN) == (b < SIGN);
    let r = product(without_sign(a), without_sign(b), !positive);
    if positive {
        r
    } else {
        flip_if_any(r)
    }
}

/// A bound below on the product of two values, unless it may overflow.
pub fn product_at_least(a: u64, b: u64) -> (r: Option<u64>)
    requires
        in_range(a),
        in_range(b),
    ensures
        r == product_below(a, b),
        r is Some ==> in_range(r->0),
{
    flip_if_any(product_at_most(flip(a), b))
}

/// A bound no greater than `magnitude`, where that one is no less than the units.
proof fn lemma_bound_exists(magnitude: int, units: int) -> (r: int)
    requires
        0 <= magnitude <= MOST,
        value(magnitude) >= units || magnitude == MOST,
    ensures
        is_bound(r, units),
    decreases magnitude,
{
    if magnitude == 0 || value(magnitude - 1) < units {
        magnitude
    } else {
        lemma_bound_exists(magnitude - 1, units)
    }
}

/// A floor no less than `magnitude`, where that one is no greater than the units.
proof fn lemma_floor_exists(magnitude: int, units: int) -> (r: int)
    requires
        0 <= magnitude <= MOST,
        value(magnitude) <= units,
    ensures
        is_floor(r, units),
    decreases MOST - magnitude,
{
    if magnitude == MOST || units < value(magnitude + 1) {
        magnitude
    } else {
        lemma_floor_exists(magnitude + 1, units)
    }
}

/// What does not overflow has a bound, and the finite magnitude nearest to
/// anything up to it does not exceed the bound.
pub proof fn rounding_stays_within_the_bound(exact: int, units: int, nearest: u64)
    requires
        exact <= units < overflow(),
        nearest <= MOST,
        forall|other: u64|
            other <= MOST ==> distance(value(nearest as int), exact) <= distance(
                #[trigger] value(other as int),
                exact,
            ),
    ensures
        bound_on(units) is Some,
        is_bound(bound_on(units)->0 as int, units),
        nearest <= bound_on(units)->0,
{
    let m = lemma_bound_exists(MOST as int, units);
    lemma_one_bound(m, units);
    if nearest > m {
        lemma_monotone(m + 1, nearest as int);
        lemma_step(m);
        assert(distance(value(nearest as int), exact) <= distance(value(m as u64 as int), exact));
    }
}

/// Every amount has a floor, and the finite magnitude nearest to anything from
/// it on is no less than the floor.
pub proof fn rounding_stays_above_the_floor(exact: int, units: int, nearest: u64)
    requires
        0 <= units <= exact,
        nearest <= MOST,
        forall|other: u64|
            other <= MOST ==> distance(value(nearest as int), exact) <= distance(
                #[trigger] value(other as int),
                exact,
            ),
    ensures
        is_floor(floor_on(units) as int, units),
        floor_on(units) <= nearest,
{
    let m = lemma_floor_exists(0, units);
    lemma_one_floor(m, units);
    if nearest < m {
        lemma_monotone(nearest as int + 1, m);
        lemma_step(nearest as int);
        assert(distance(value(nearest as int), exact) <= distance(value(m as u64 as int), exact));
    }
}

/// A sum is rounded up to the least number that is not below it, or not at all
/// where even the largest number falls too far short of it; the same holds of a
/// sum of negative numbers, rounded down.
pub proof fn a_sum_is_rounded_to_the_next_number(a: u64, b: u64)
    requires
        a <= MOST,
        b <= MOST,
    ensures
        ({
            let units = value(a as int) + value(b as int);
            &&& sum_above(a, b) is None <==> units >= overflow()
            &&& sum_above(a, b) is Some ==> is_bound(sum_above(a, b)->0 as int, units)
            &&& sum_below(flipped(a), flipped(b)) == flipped_if_any(sum_above(a, b))
        }),
{
    let units = value(a as int) + value(b as int);
    if units < overflow() {
        let m = lemma_bound_exists(MOST as int, units);
        lemma_one_bound(m, units);
    }
    assert(flipped(flipped(a)) == a && flipped(flipped(b)) == b);
    lemma_monotone(0, a as int);
    lemma_monotone(0, b as int);
}

/// A number between two consecutive magnitudes has the upper one as its bound
/// and the lower one as its floor, and a magnitude itself has itself as both.
pub proof fn numbers_lie_between_floor_and_bound(magnitude: u64, units: int)
    requires
        magnitude < MOST,
        units < overflow(),
        value(magnitude as int) <= units < value(magnitude + 1),
    ensures
        floor_on(units) == magnitude,
        units == value(magnitude as int) ==> bound_on(units) == Some(magnitude),
        units > value(magnitude as int) ==> bound_on(units) == Some((magnitude + 1) as u64),
{
    lemma_one_floor(magnitude as int, units);
    if units == value(magnitude as int) {
        if magnitude > 0 {
            lemma_step(magnitude - 1);
        }
        lemma_one_bound(magnitude as int, units);
    } else {
        lemma_one_bound(magnitude + 1, units);
    }
}

} // verus!
