//! Density function trees and the registry that named ones live in.
//!
//! Floating-point constants are held as the bit patterns of 64-bit values;
//! the few facts about them that the analyses need are read off those patterns.

use crate::text::same_text;
use vstd::prelude::*;

verus! {

#[derive(Clone, Copy, PartialEq, Eq, Structural)]
pub enum TwoArgType {
    Add,
    Mul,
    Min,
    Max,
}

#[derive(Clone, Copy, PartialEq, Eq, Structural)]
pub enum MappedType {
    Abs,
    Square,
    Cube,
    HalfNegative,
    QuarterNegative,
    Invert,
    Squeeze,
}

#[derive(Clone, Copy, PartialEq, Eq, Structural)]
pub enum MarkerType {
    Interpolated,
    FlatCache,
    Cache2d,
    CacheOnce,
    CacheAllInCell,
}

/// A density function subtree.
pub enum DensityFunction {
    Constant { value: u64 },
    Reference { id: String },
    YClampedGradient { from_y: i32, to_y: i32, from_value: u64, to_value: u64 },
    Noise { noise: String },
    ShiftA { noise: String },
    ShiftB { noise: String },
    Shift { noise: String },
    ShiftedNoise {
        noise: String,
        shift_x: Box<DensityFunction>,
        shift_y: Box<DensityFunction>,
        shift_z: Box<DensityFunction>,
    },
    BlendedNoise,
    EndIslands,
    BlendAlpha,
    BlendOffset,
    /// `nonzero1` and `nonzero2` tell whether the static bounds of the
    /// argument prove it finite and never zero.
    TwoArgumentSimple {
        op: TwoArgType,
        argument1: Box<DensityFunction>,
        argument2: Box<DensityFunction>,
        nonzero1: bool,
        nonzero2: bool,
    },
    Mapped { mapping: MappedType, input: Box<DensityFunction> },
    Clamp { input: Box<DensityFunction>, min: u64, max: u64 },
    RangeChoice {
        input: Box<DensityFunction>,
        when_in_range: Box<DensityFunction>,
        when_out_of_range: Box<DensityFunction>,
    },
    IntervalSelect { input: Box<DensityFunction>, functions: Vec<DensityFunction> },
    WeirdScaledSampler { input: Box<DensityFunction> },
    BlendDensity { input: Box<DensityFunction> },
    Marker { kind: MarkerType, wrapped: Box<DensityFunction> },
    FindTopSurface {
        density: Box<DensityFunction>,
        upper_bound: Box<DensityFunction>,
        lower_bound: i32,
    },
    Spline { spline: CubicSpline },
}

/// A cubic spline over another density function.
pub struct CubicSpline {
    pub coordinate: Box<DensityFunction>,
    pub points: Vec<SplinePoint>,
}

pub struct SplinePoint {
    pub location: u64,
    pub derivative: u64,
    pub value: SplineValue,
}

pub enum SplineValue {
    Constant(u64),
    Nested(Box<CubicSpline>),
}

// ---------------------------------------------------------------------------
// Bit patterns of floating-point values
// ---------------------------------------------------------------------------
/// The pattern without its sign bit.
pub open spec fn magnitude(bits: u64) -> int {
    bits as int % 0x8000_0000_0000_0000
}

/// Neither infinite nor NaN.
pub open spec fn finite_bits(bits: u64) -> bool {
    magnitude(bits) < 0x7ff0_0000_0000_0000
}

pub open spec fn nan_bits(bits: u64) -> bool {
    magnitude(bits) > 0x7ff0_0000_0000_0000
}

/// A zero of either sign.
pub open spec fn zero_bits(bits: u64) -> bool {
    magnitude(bits) == 0
}

/// The value's place in the numeric order; both zeros have the same place.
pub open spec fn numeric_rank(bits: u64) -> int {
    if bits < 0x8000_0000_0000_0000 {
        magnitude(bits)
    } else {
        -magnitude(bits)
    }
}

/// The floating-point comparison `a >= b`.
pub open spec fn at_least_bits(a: u64, b: u64) -> bool {
    !nan_bits(a) && !nan_bits(b) && numeric_rank(a) >= numeric_rank(b)
}

pub fn is_finite(bits: u64) -> (r: bool)
    ensures
        r == finite_bits(bits),
{
    bits % 0x8000_0000_0000_0000 < 0x7ff0_0000_0000_0000
}

pub fn is_zero(bits: u64) -> (r: bool)
    ensures
        r == zero_bits(bits),
{
    bits % 0x8000_0000_0000_0000 == 0
}

pub fn at_least(a: u64, b: u64) -> (r: bool)
    ensures
        r == at_least_bits(a, b),
{
    let size_a: u64 = a % 0x8000_0000_0000_0000;
    let size_b: u64 = b % 0x8000_0000_0000_0000;
    if size_a > 0x7ff0_0000_0000_0000 || size_b > 0x7ff0_0000_0000_0000 {
        return false;
    }
    let negative_a = a >= 0x8000_0000_0000_0000;
    let negative_b = b >= 0x8000_0000_0000_0000;
    if negative_a && negative_b {
        size_a <= size_b
    } else if negative_a {
        size_a == 0 && size_b == 0
    } else if negative_b {
        true
    } else {
        size_a >= size_b
    }
}

// ---------------------------------------------------------------------------
// Registry
// ---------------------------------------------------------------------------
pub struct NamedFunction {
    pub id: String,
    pub function: DensityFunction,
}

/// The named density functions that references resolve to.
pub struct DensityRegistry {
    pub entries: Vec<NamedFunction>,
}

/// `i` is the entry that `id` resolves to.
pub open spec fn resolves_to(entries: Seq<NamedFunction>, id: Seq<char>, i: int) -> bool {
    &&& 0 <= i < entries.len()
    &&& entries[i].id@ == id
    &&& forall|j: int| 0 <= j < i ==> #[trigger] entries[j].id@ != id
}

/// The entry that `id` resolves to, if there is one.
pub open spec fn resolved(entries: Seq<NamedFunction>, id: Seq<char>) -> Option<int> {
    if exists|i: int| resolves_to(entries, id, i) {
        Some(choose|i: int| resolves_to(entries, id, i))
    } else {
        None
    }
}

pub proof fn lemma_resolved(entries: Seq<NamedFunction>, id: Seq<char>, i: int)
    requires
        resolves_to(entries, id, i),
    ensures
        resolved(entries, id) == Some(i),
{
    let k = choose|k: int| resolves_to(entries, id, k);
    assert(resolves_to(entries, id, k));
    if k < i {
        assert(entries[k].id@ != id);
    }
    if i < k {
        assert(entries[i].id@ != id);
    }
}

impl DensityRegistry {
    pub open spec fn view(&self) -> Seq<NamedFunction> {
        self.entries@
    }

    /// The place of the function registered under `id`.
    pub fn lookup(&self, id: &str) -> (r: Option<usize>)
        ensures
            match r {
                Some(i) => resolved(self@, id@) == Some(i as int) && i < self@.len(),
                None => resolved(self@, id@) is None,
            },
    {
        let mut i: usize = 0;
        while i < self.entries.len()
            invariant
                i <= self.entries.len(),
                forall|j: int| 0 <= j < i ==> #[trigger] self@[j].id@ != id@,
            decreases self.entries.len() - i,
        {
            if same_text(self.entries[i].id.as_str(), id) {
                proof {
                    lemma_resolved(self@, id@, i as int);
                }
                return Some(i);
            }
            i += 1;
        }
        None
    }
}

/// How many of the first `n` entries are not being visited.
pub open spec fn unvisited(visiting: Seq<usize>, n: nat) -> nat
    decreases n,
{
    if n == 0 {
        0
    } else {
        unvisited(visiting, (n - 1) as nat) + if visiting.contains((n - 1) as usize) {
            0nat
        } else {
            1nat
        }
    }
}

/// Visiting one more entry leaves fewer unvisited.
pub proof fn lemma_unvisited(visiting: Seq<usize>, entry: usize, n: nat)
    requires
        !visiting.contains(entry),
    ensures
        unvisited(visiting.push(entry), n) <= unvisited(visiting, n),
        entry < n && n <= usize::MAX + 1 ==> unvisited(visiting.push(entry), n) < unvisited(
            visiting,
            n,
        ),
    decreases n,
{
    if n > 0 {
        lemma_unvisited(visiting, entry, (n - 1) as nat);
        let last = (n - 1) as usize;
        let longer = visiting.push(entry);
        assert(longer[visiting.len() as int] == entry);
        if visiting.contains(last) {
            let k = choose|k: int| 0 <= k < visiting.len() && visiting[k] == last;
            assert(longer[k] == last);
        }
    }
}

/// Whether an entry is being visited.
pub fn is_visiting(visiting: &Vec<usize>, entry: usize) -> (r: bool)
    ensures
        r == visiting@.contains(entry),
{
    let mut i: usize = 0;
    while i < visiting.len()
        invariant
            i <= visiting.len(),
            forall|j: int| 0 <= j < i ==> visiting@[j] != entry,
        decreases visiting.len() - i,
    {
        if visiting[i] == entry {
            return true;
        }
        i += 1;
    }
    false
}

} // verus!
