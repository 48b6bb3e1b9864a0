//! What holds of the analyses of density functions: what a function is said of
//! follows from what its operands are said of.

use crate::density::bounds;
use crate::density::bounds::{BlendedReach, BoundsPlan, Spread};
use crate::density::functions;
use crate::density::functions::{
    DensityFunction, DensityRegistry, MappedType, MarkerType, SplinePoint, SplineValue,
    TwoArgType,
};
use crate::density::magnitude;
use vstd::prelude::*;

verus! {

/// The `k`-th operand of a function, in the order in which they are written;
/// of a spline the coordinate and then the splines at its points.
pub open spec fn operand(df: DensityFunction, k: int) -> Option<DensityFunction> {
    match df {
        DensityFunction::Marker { kind, wrapped } => if k == 0 {
            Some(*wrapped)
        } else {
            None
        },
        DensityFunction::BlendDensity { input } => if k == 0 {
            Some(*input)
        } else {
            None
        },
        DensityFunction::Clamp { input, min, max } => if k == 0 {
            Some(*input)
        } else {
            None
        },
        DensityFunction::Mapped { mapping, input } => if k == 0 {
            Some(*input)
        } else {
            None
        },
        DensityFunction::WeirdScaledSampler { input } => if k == 0 {
            Some(*input)
        } else {
            None
        },
        DensityFunction::ShiftedNoise { noise, shift_x, shift_y, shift_z } => if k == 0 {
            Some(*shift_x)
        } else if k == 1 {
            Some(*shift_y)
        } else if k == 2 {
            Some(*shift_z)
        } else {
            None
        },
        DensityFunction::TwoArgumentSimple { op, argument1, argument2, nonzero1, nonzero2 } => if k
            == 0 {
            Some(*argument1)
        } else if k == 1 {
            Some(*argument2)
        } else {
            None
        },
        DensityFunction::RangeChoice { input, when_in_range, when_out_of_range } => if k == 0 {
            Some(*input)
        } else if k == 1 {
            Some(*when_in_range)
        } else if k == 2 {
            Some(*when_out_of_range)
        } else {
            None
        },
        DensityFunction::IntervalSelect { input, functions } => if k == 0 {
            Some(*input)
        } else if 1 <= k <= functions@.len() {
            Some(functions@[k - 1])
        } else {
            None
        },
        DensityFunction::FindTopSurface { density, upper_bound, lower_bound } => if k == 0 {
            Some(*density)
        } else if k == 1 {
            Some(*upper_bound)
        } else {
            None
        },
        DensityFunction::Spline { spline } => if k == 0 {
            Some(*spline.coordinate)
        } else if 1 <= k <= spline.points@.len() {
            nested_at(spline.points@, k - 1)
        } else {
            None
        },
        _ => None,
    }
}

/// The spline at a point, where there is one.
pub open spec fn nested_at(points: Seq<SplinePoint>, i: int) -> Option<DensityFunction> {
    match points[i].value {
        SplineValue::Constant(v) => None,
        SplineValue::Nested(nested) => Some(DensityFunction::Spline { spline: *nested }),
    }
}

/// The `k`-th operand holds a channel.
pub open spec fn channel_at(
    df: DensityFunction,
    reg: DensityRegistry,
    visiting: Seq<usize>,
    k: int,
) -> Option<DensityFunction> {
    match operand(df, k) {
        Some(part) => bounds::first_channel(part, reg, visiting),
        None => None,
    }
}

proof fn lemma_list_channel(
    list: Seq<DensityFunction>,
    reg: DensityRegistry,
    visiting: Seq<usize>,
    n: nat,
)
    requires
        n <= list.len(),
    ensures
        ({
            let found = bounds::list_channel(list, reg, visiting, n);
            &&& found is None <==> forall|i: int|
                0 <= i < n ==> bounds::first_channel(#[trigger] list[i], reg, visiting) is None
            &&& forall|i: int|
                0 <= i < n && bounds::first_channel(#[trigger] list[i], reg, visiting) is Some && (
                forall|j: int|
                    0 <= j < i ==> bounds::first_channel(#[trigger] list[j], reg, visiting) is None)
                    ==> found == bounds::first_channel(list[i], reg, visiting)
        }),
    decreases n,
{
    if n > 0 {
        lemma_list_channel(list, reg, visiting, (n - 1) as nat);
    }
}

/// The channel of the spline at a point.
pub open spec fn point_channel(
    points: Seq<SplinePoint>,
    reg: DensityRegistry,
    visiting: Seq<usize>,
    i: int,
) -> Option<DensityFunction> {
    match nested_at(points, i) {
        Some(part) => bounds::first_channel(part, reg, visiting),
        None => None,
    }
}

proof fn lemma_points_channel(
    points: Seq<SplinePoint>,
    reg: DensityRegistry,
    visiting: Seq<usize>,
    n: nat,
)
    requires
        n <= points.len(),
    ensures
        ({
            let found = bounds::points_channel(points, reg, visiting, n);
            &&& found is None <==> forall|i: int|
                0 <= i < n ==> #[trigger] point_channel(points, reg, visiting, i) is None
            &&& forall|i: int|
                0 <= i < n && #[trigger] point_channel(points, reg, visiting, i) is Some && (forall|
                    j: int,
                |
                    0 <= j < i ==> #[trigger] point_channel(points, reg, visiting, j) is None)
                    ==> found == point_channel(points, reg, visiting, i)
        }),
    decreases n,
{
    if n > 0 {
        lemma_points_channel(points, reg, visiting, (n - 1) as nat);
        let last = points[n - 1].value;
        if last is Nested {
            let nested = *last->Nested_0;
            assert(bounds::first_channel(DensityFunction::Spline { spline: nested }, reg, visiting)
                == bounds::spline_channel(nested, reg, visiting));
            assert(point_channel(points, reg, visiting, n - 1) == bounds::spline_channel(
                nested,
                reg,
                visiting,
            ));
        } else {
            assert(point_channel(points, reg, visiting, n - 1) is None);
        }
        let before = bounds::points_channel(points, reg, visiting, (n - 1) as nat);
        assert(bounds::points_channel(points, reg, visiting, n) == bounds::first_of(
            before,
            point_channel(points, reg, visiting, n - 1),
        ));
    }
}

/// No operand before the `k`-th holds a channel.
pub open spec fn none_before(
    df: DensityFunction,
    reg: DensityRegistry,
    visiting: Seq<usize>,
    k: int,
) -> bool {
    forall|j: int| 0 <= j < k ==> #[trigger] channel_at(df, reg, visiting, j) is None
}

proof fn lemma_select_channel(
    df: DensityFunction,
    reg: DensityRegistry,
    visiting: Seq<usize>,
    k: int,
)
    requires
        df is IntervalSelect,
        0 <= k,
    ensures
        ({
            let found = bounds::first_channel(df, reg, visiting);
            &&& channel_at(df, reg, visiting, k) is Some && none_before(df, reg, visiting, k)
                ==> found == channel_at(df, reg, visiting, k)
            &&& found is None ==> channel_at(df, reg, visiting, k) is None
        }),
{
    let input = *df->IntervalSelect_input;
    let list = df->functions@;
    lemma_list_channel(list, reg, visiting, list.len());
    let rest = bounds::list_channel(list, reg, visiting, list.len());
    assert(channel_at(df, reg, visiting, 0) == bounds::first_channel(input, reg, visiting));
    assert(bounds::first_channel(df, reg, visiting) == bounds::first_of(
        channel_at(df, reg, visiting, 0),
        rest,
    ));
    if 1 <= k <= list.len() {
        assert(channel_at(df, reg, visiting, k) == bounds::first_channel(
            list[k - 1],
            reg,
            visiting,
        ));
        if none_before(df, reg, visiting, k) {
            assert forall|j: int| 0 <= j < k - 1 implies bounds::first_channel(
                #[trigger] list[j],
                reg,
                visiting,
            ) is None by {
                assert(channel_at(df, reg, visiting, j + 1) is None);
            }
        }
    }
}

proof fn lemma_spline_channel(
    df: DensityFunction,
    reg: DensityRegistry,
    visiting: Seq<usize>,
    k: int,
)
    requires
        df is Spline,
        0 <= k,
    ensures
        ({
            let found = bounds::first_channel(df, reg, visiting);
            &&& channel_at(df, reg, visiting, k) is Some && none_before(df, reg, visiting, k)
                ==> found == channel_at(df, reg, visiting, k)
            &&& found is None ==> channel_at(df, reg, visiting, k) is None
        }),
{
    let spline = df->spline;
    let points = spline.points@;
    lemma_points_channel(points, reg, visiting, points.len());
    let rest = bounds::points_channel(points, reg, visiting, points.len());
    assert(channel_at(df, reg, visiting, 0) == bounds::first_channel(
        *spline.coordinate,
        reg,
        visiting,
    ));
    assert(bounds::first_channel(df, reg, visiting) == bounds::spline_channel(
        spline,
        reg,
        visiting,
    ));
    assert(bounds::first_channel(df, reg, visiting) == bounds::first_of(
        channel_at(df, reg, visiting, 0),
        rest,
    ));
    if 1 <= k <= points.len() {
        assert(channel_at(df, reg, visiting, k) == point_channel(points, reg, visiting, k - 1));
        if none_before(df, reg, visiting, k) {
            assert forall|j: int| 0 <= j < k - 1 implies #[trigger] point_channel(
                points,
                reg,
                visiting,
                j,
            ) is None by {
                assert(channel_at(df, reg, visiting, j + 1) is None);
            }
        }
    }
}

/// The first channel of a function is an interpolated marker itself, or the
/// first channel of the first operand that has one; without such an operand
/// there is none.
pub proof fn the_first_channel_is_that_of_the_first_operand(
    df: DensityFunction,
    reg: DensityRegistry,
    visiting: Seq<usize>,
    k: int,
)
    requires
        !(df is Reference),
        0 <= k,
    ensures
        ({
            let found = bounds::first_channel(df, reg, visiting);
            let interpolated = df is Marker && df->kind == MarkerType::Interpolated;
            &&& interpolated ==> found == Some(df)
            &&& !interpolated && channel_at(df, reg, visiting, k) is Some && none_before(
                df,
                reg,
                visiting,
                k,
            ) ==> found == channel_at(df, reg, visiting, k)
            &&& !interpolated && found is None ==> channel_at(df, reg, visiting, k) is None
        }),
{
    if df is IntervalSelect {
        lemma_select_channel(df, reg, visiting, k);
    } else if df is Spline {
        lemma_spline_channel(df, reg, visiting, k);
    } else if none_before(df, reg, visiting, k) {
        if k > 0 {
            assert(channel_at(df, reg, visiting, 0) is None);
        }
        if k > 1 {
            assert(channel_at(df, reg, visiting, 1) is None);
        }
    }
}

/// The `k`-th operand holds blended noise.
pub open spec fn blended_at(
    df: DensityFunction,
    reg: DensityRegistry,
    visiting: Seq<usize>,
    k: int,
) -> bool {
    operand(df, k) is Some && bounds::holds_blended(operand(df, k)->0, reg, visiting)
}

proof fn lemma_any_blended(
    list: Seq<DensityFunction>,
    reg: DensityRegistry,
    visiting: Seq<usize>,
    n: nat,
)
    requires
        n <= list.len(),
    ensures
        bounds::any_blended(list, reg, visiting, n) <==> exists|i: int|
            0 <= i < n && bounds::holds_blended(#[trigger] list[i], reg, visiting),
    decreases n,
{
    if n > 0 {
        lemma_any_blended(list, reg, visiting, (n - 1) as nat);
    }
}

proof fn lemma_points_blended(
    points: Seq<SplinePoint>,
    reg: DensityRegistry,
    visiting: Seq<usize>,
    n: nat,
)
    requires
        n <= points.len(),
    ensures
        bounds::points_blended(points, reg, visiting, n) <==> exists|i: int|
            0 <= i < n && (#[trigger] nested_at(points, i)) is Some && bounds::holds_blended(
                nested_at(points, i)->0,
                reg,
                visiting,
            ),
    decreases n,
{
    if n > 0 {
        lemma_points_blended(points, reg, visiting, (n - 1) as nat);
        let last = points[n - 1].value;
        if last is Nested {
            let nested = *last->Nested_0;
            assert(nested_at(points, n - 1) == Some(DensityFunction::Spline { spline: nested }));
            assert(bounds::holds_blended(DensityFunction::Spline { spline: nested }, reg, visiting)
                == bounds::spline_blended(nested, reg, visiting));
        } else {
            assert(nested_at(points, n - 1) is None);
        }
    }
}

/// Blended noise occurs in a function exactly where it is blended noise or one
/// of its operands holds some.
pub proof fn blended_noise_occurs_where_an_operand_holds_it(
    df: DensityFunction,
    reg: DensityRegistry,
    visiting: Seq<usize>,
)
    requires
        !(df is Reference),
    ensures
        bounds::holds_blended(df, reg, visiting) <==> df is BlendedNoise || exists|k: int|
            0 <= k && #[trigger] blended_at(df, reg, visiting, k),
{
    let zero = blended_at(df, reg, visiting, 0);
    match df {
        DensityFunction::IntervalSelect { input, functions } => {
            let list = functions@;
            lemma_any_blended(list, reg, visiting, list.len());
            assert(zero == bounds::holds_blended(*input, reg, visiting));
            assert(bounds::holds_blended(df, reg, visiting) == (zero || bounds::any_blended(
                list,
                reg,
                visiting,
                list.len(),
            )));
            if bounds::any_blended(list, reg, visiting, list.len()) {
                let i = choose|i: int|
                    0 <= i < list.len() && bounds::holds_blended(#[trigger] list[i], reg, visiting);
                assert(blended_at(df, reg, visiting, i + 1));
            }
            if exists|k: int| 0 <= k && #[trigger] blended_at(df, reg, visiting, k) {
                let k = choose|k: int| 0 <= k && #[trigger] blended_at(df, reg, visiting, k);
                if k > 0 {
                    assert(bounds::holds_blended(list[k - 1], reg, visiting));
                }
            }
        },
        DensityFunction::Spline { spline } => {
            let points = spline.points@;
            lemma_points_blended(points, reg, visiting, points.len());
            assert(zero == bounds::holds_blended(*spline.coordinate, reg, visiting));
            assert(bounds::holds_blended(df, reg, visiting) == bounds::spline_blended(
                spline,
                reg,
                visiting,
            ));
            if zero {
                assert(blended_at(df, reg, visiting, 0));
            }
            if bounds::points_blended(points, reg, visiting, points.len()) {
                let i = choose|i: int|
                    0 <= i < points.len() && (#[trigger] nested_at(points, i)) is Some
                        && bounds::holds_blended(nested_at(points, i)->0, reg, visiting);
                assert(blended_at(df, reg, visiting, i + 1));
            }
            if exists|k: int| 0 <= k && #[trigger] blended_at(df, reg, visiting, k) {
                let k = choose|k: int| 0 <= k && #[trigger] blended_at(df, reg, visiting, k);
                if k > 0 {
                    assert(nested_at(points, k - 1) is Some);
                }
            }
        },
        _ => {
            if bounds::holds_blended(df, reg, visiting) && !(df is BlendedNoise) {
                if zero {
                    assert(blended_at(df, reg, visiting, 0));
                } else if blended_at(df, reg, visiting, 1) {
                    assert(blended_at(df, reg, visiting, 1));
                } else {
                    assert(blended_at(df, reg, visiting, 2));
                }
            }
            if exists|k: int| 0 <= k && #[trigger] blended_at(df, reg, visiting, k) {
                let k = choose|k: int| 0 <= k && #[trigger] blended_at(df, reg, visiting, k);
                assert(k == 0 || k == 1 || k == 2);
            }
        },
    }
}

/// A marker and a blend over a function are said of what the function is said
/// of.
pub proof fn wrappers_change_nothing(
    kind: MarkerType,
    inner: DensityFunction,
    reg: DensityRegistry,
    visiting: Seq<usize>,
)
    ensures
        ({
            let marker = DensityFunction::Marker { kind, wrapped: Box::new(inner) };
            let blend = DensityFunction::BlendDensity { input: Box::new(inner) };
            &&& bounds::plan_of(marker, reg, visiting) == bounds::plan_of(inner, reg, visiting)
            &&& bounds::plan_of(blend, reg, visiting) == bounds::plan_of(inner, reg, visiting)
            &&& bounds::spread_of(marker, reg, visiting) == bounds::spread_of(inner, reg, visiting)
            &&& bounds::spread_of(blend, reg, visiting) == bounds::spread_of(inner, reg, visiting)
            &&& bounds::reach_of(marker, reg, visiting) == bounds::reach_of(inner, reg, visiting)
            &&& bounds::reach_of(blend, reg, visiting) == bounds::reach_of(inner, reg, visiting)
            &&& bounds::zeroing_level(marker, reg, visiting) == bounds::zeroing_level(
                inner,
                reg,
                visiting,
            )
        }),
{
}

/// A reference is said of what it refers to; one that leads back to itself, or
/// to nothing, has no bounds, no finite values and no channel, and may hold
/// live noise.
pub proof fn references_are_what_they_refer_to(
    id: String,
    reg: DensityRegistry,
    visiting: Seq<usize>,
)
    ensures
        ({
            let reference = DensityFunction::Reference { id };
            let found = functions::resolved(reg@, id@);
            let known = found is Some && !visiting.contains(found->0 as usize);
            let below = visiting.push(found->0 as usize);
            let inner = reg@[found->0].function;
            &&& known ==> {
                &&& bounds::plan_of(reference, reg, visiting) == bounds::plan_of(inner, reg, below)
                &&& bounds::spread_of(reference, reg, visiting) == bounds::spread_of(
                    inner,
                    reg,
                    below,
                )
                &&& bounds::reach_of(reference, reg, visiting) == bounds::reach_of(
                    inner,
                    reg,
                    below,
                )
                &&& bounds::zeroing_level(reference, reg, visiting) == bounds::zeroing_level(
                    inner,
                    reg,
                    below,
                )
                &&& bounds::first_channel(reference, reg, visiting) == bounds::first_channel(
                    inner,
                    reg,
                    below,
                )
                &&& bounds::holds_blended(reference, reg, visiting) == bounds::holds_blended(
                    inner,
                    reg,
                    below,
                )
            }
            &&& !known ==> {
                &&& bounds::plan_of(reference, reg, visiting) is Unbounded
                &&& bounds::spread_of(reference, reg, visiting) is None
                &&& bounds::reach_of(reference, reg, visiting) is Live
                &&& bounds::zeroing_level(reference, reg, visiting) is None
                &&& bounds::first_channel(reference, reg, visiting) is None
                &&& !bounds::holds_blended(reference, reg, visiting)
            }
        }),
{
}

/// A name refers to the first function that has it.
pub proof fn a_name_refers_to_the_first_that_has_it(
    entries: Seq<functions::NamedFunction>,
    id: Seq<char>,
)
    ensures
        functions::resolved(entries, id) is None <==> forall|i: int|
            0 <= i < entries.len() ==> (#[trigger] entries[i]).id@ != id,
        functions::resolved(entries, id) is Some ==> ({
            let i = functions::resolved(entries, id)->0;
            &&& 0 <= i < entries.len()
            &&& entries[i].id@ == id
            &&& forall|j: int| 0 <= j < i ==> (#[trigger] entries[j]).id@ != id
        }),
{
    if exists|i: int| 0 <= i < entries.len() && (#[trigger] entries[i]).id@ == id {
        let i = choose|i: int| 0 <= i < entries.len() && (#[trigger] entries[i]).id@ == id;
        let first = lemma_first_named(entries, id, i);
        functions::lemma_resolved(entries, id, first);
    }
}

proof fn lemma_first_named(
    entries: Seq<functions::NamedFunction>,
    id: Seq<char>,
    i: int,
) -> (first: int)
    requires
        0 <= i < entries.len(),
        entries[i].id@ == id,
    ensures
        functions::resolves_to(entries, id, first),
    decreases i,
{
    if exists|j: int| 0 <= j < i && (#[trigger] entries[j]).id@ == id {
        let j = choose|j: int| 0 <= j < i && (#[trigger] entries[j]).id@ == id;
        lemma_first_named(entries, id, j)
    } else {
        i
    }
}

/// Only a gradient that rises to zero has a level from which it is zero, and
/// that level is its upper end.
pub proof fn only_a_gradient_to_zero_is_zeroing(
    df: DensityFunction,
    reg: DensityRegistry,
    visiting: Seq<usize>,
)
    requires
        !(df is Reference) && !(df is Marker),
    ensures
        bounds::zeroing_level(df, reg, visiting) is Some <==> df is YClampedGradient
            && df->from_y < df->to_y && functions::zero_bits(df->to_value)
            && functions::finite_bits(df->from_value),
        bounds::zeroing_level(df, reg, visiting) is Some ==> bounds::zeroing_level(
            df,
            reg,
            visiting,
        )->0 == df->to_y,
{
}

/// Reaches combine in any order and grouping; one that is absent changes
/// nothing, two that are neutral are so from the higher level on, and all else
/// is live.
pub proof fn reaches_combine_in_any_order(a: BlendedReach, b: BlendedReach, c: BlendedReach)
    ensures
        bounds::combined(a, b) == bounds::combined(b, a),
        bounds::combined(bounds::combined(a, b), c) == bounds::combined(a, bounds::combined(b, c)),
        bounds::settled(a) ==> bounds::combined(BlendedReach::Absent, a) == a,
        a is NeutralAtOrAbove && b is NeutralAtOrAbove ==> ({
            let both = bounds::combined(a, b);
            &&& both is NeutralAtOrAbove
            &&& both == a || both == b
            &&& both->NeutralAtOrAbove_0 >= a->NeutralAtOrAbove_0
            &&& both->NeutralAtOrAbove_0 >= b->NeutralAtOrAbove_0
        }),
        !bounds::settled(a) ==> bounds::combined(a, b) is Live,
{
}

/// Combined reaches are absent where all are, neutral from the highest level
/// on where none is worse than neutral, and live otherwise.
pub proof fn combined_reaches_are_as_bad_as_the_worst(children: Seq<BlendedReach>, n: nat)
    requires
        n <= children.len(),
    ensures
        ({
            let all = bounds::combined_all(children, n);
            &&& all is Absent <==> forall|i: int|
                0 <= i < n ==> (#[trigger] children[i]) is Absent
            &&& bounds::settled(all) <==> forall|i: int|
                0 <= i < n ==> bounds::settled(#[trigger] children[i])
            &&& !bounds::settled(all) ==> all is Live
            &&& all is NeutralAtOrAbove ==> {
                &&& exists|i: int| 0 <= i < n && #[trigger] children[i] == all
                &&& forall|i: int|
                    0 <= i < n && (#[trigger] children[i]) is NeutralAtOrAbove
                        ==> children[i]->NeutralAtOrAbove_0 <= all->NeutralAtOrAbove_0
            }
        }),
    decreases n,
{
    if n > 0 {
        let before = bounds::combined_all(children, (n - 1) as nat);
        let all = bounds::combined_all(children, n);
        combined_reaches_are_as_bad_as_the_worst(children, (n - 1) as nat);
        if all is NeutralAtOrAbove {
            if before == all {
                let i = choose|i: int| 0 <= i < n - 1 && #[trigger] children[i] == before;
                assert(children[i] == all);
            } else {
                assert(children[n - 1] == all);
            }
        }
    }
}

/// A product is a zero from the level of a factor that is zero from there on,
/// where the other factor is finite; without noise in either it holds none.
pub proof fn a_product_with_zero_is_zero(
    level: i32,
    gradient: Option<i32>,
    finite: bool,
    reach1: BlendedReach,
    reach2: BlendedReach,
)
    ensures
        reach1 is Absent && reach2 is Absent ==> bounds::product_reach(
            Some(level),
            true,
            gradient,
            finite,
            reach1,
            reach2,
        ) is Absent,
        !(reach1 is Absent && reach2 is Absent) ==> {
            &&& bounds::product_reach(Some(level), true, gradient, finite, reach1, reach2)
                == BlendedReach::SignedZeroAtOrAbove(level)
            &&& bounds::product_reach(None, finite, Some(level), true, reach1, reach2)
                == BlendedReach::SignedZeroAtOrAbove(level)
            &&& bounds::product_reach(None, true, None, true, reach1, reach2) == bounds::combined(
                reach1,
                bounds::combined(reach2, BlendedReach::Absent),
            )
            &&& bounds::product_reach(Some(level), false, None, true, reach1, reach2)
                == bounds::combined(reach1, bounds::combined(reach2, BlendedReach::Absent))
        },
{
}

/// A zero of either sign leaves a sum what the other term is, where that holds
/// no noise and is never zero; the terms may stand in either order.
pub proof fn a_sum_with_zero_is_the_other_term(
    level: i32,
    reach1: BlendedReach,
    reach2: BlendedReach,
    nonzero1: bool,
    nonzero2: bool,
)
    ensures
        bounds::sum_reach(
            BlendedReach::SignedZeroAtOrAbove(level),
            BlendedReach::Absent,
            nonzero1,
            true,
        ) == BlendedReach::NeutralAtOrAbove(level),
        bounds::sum_reach(
            BlendedReach::SignedZeroAtOrAbove(level),
            BlendedReach::Absent,
            nonzero1,
            false,
        ) is Live,
        bounds::sum_reach(reach1, reach2, nonzero1, nonzero2) == bounds::sum_reach(
            reach2,
            reach1,
            nonzero2,
            nonzero1,
        ),
        bounds::settled(reach1) && bounds::settled(reach2) ==> bounds::sum_reach(
            reach1,
            reach2,
            nonzero1,
            nonzero2,
        ) == bounds::combined(reach1, reach2),
{
}

/// The level from which blended noise does not matter is the highest of those
/// of the functions that are neutral from some level on.
pub proof fn noise_is_irrelevant_from_the_highest_level(
    inners: Seq<DensityFunction>,
    reg: DensityRegistry,
    n: nat,
)
    requires
        n <= inners.len(),
    ensures
        ({
            let level = bounds::irrelevance_level(inners, reg, n);
            let reach = |i: int| bounds::reach_of(inners[i], reg, Seq::empty());
            &&& level is None <==> forall|i: int|
                0 <= i < n ==> !((#[trigger] reach(i)) is NeutralAtOrAbove)
            &&& level is Some ==> exists|i: int|
                0 <= i < n && #[trigger] reach(i) == BlendedReach::NeutralAtOrAbove(level->0)
            &&& forall|i: int|
                0 <= i < n && (#[trigger] reach(i)) is NeutralAtOrAbove
                    ==> reach(i)->NeutralAtOrAbove_0 <= level->0
        }),
    decreases n,
{
    let reach = |i: int| bounds::reach_of(inners[i], reg, Seq::empty());
    if n > 0 {
        noise_is_irrelevant_from_the_highest_level(inners, reg, (n - 1) as nat);
        let before = bounds::irrelevance_level(inners, reg, (n - 1) as nat);
        let level = bounds::irrelevance_level(inners, reg, n);
        if reach(n - 1) is NeutralAtOrAbove && level == Some(reach(n - 1)->NeutralAtOrAbove_0) {
            assert(reach(n - 1) == BlendedReach::NeutralAtOrAbove(level->0));
        } else if level is Some {
            assert(level == before);
            let i = choose|i: int|
                0 <= i < n - 1 && #[trigger] reach(i) == BlendedReach::NeutralAtOrAbove(before->0);
            assert(reach(i) == BlendedReach::NeutralAtOrAbove(level->0));
        }
    }
}

/// Functions whose values are known have exactly these as their bounds; only a
/// noise, a spline or a reference without an end has none.
pub proof fn bounds_are_given_up_only_for_noise(
    df: DensityFunction,
    reg: DensityRegistry,
    visiting: Seq<usize>,
)
    ensures
        ({
            let plan = bounds::plan_of(df, reg, visiting);
            &&& df is Constant ==> plan == BoundsPlan::Between(
                df->Constant_value,
                df->Constant_value,
            )
            &&& df is Clamp ==> plan == BoundsPlan::Between(df->min, df->max)
            &&& df is YClampedGradient ==> plan == BoundsPlan::Spanning(
                df->from_value,
                df->to_value,
            )
            &&& df is BlendAlpha ==> plan == BoundsPlan::Between(
                0x3FF0_0000_0000_0000,
                0x3FF0_0000_0000_0000,
            )
            &&& df is BlendOffset ==> plan == BoundsPlan::Between(0, 0)
            &&& df is EndIslands ==> plan == BoundsPlan::Between(
                0xC059_0000_0000_0000,
                0x4054_0000_0000_0000,
            )
            &&& df is WeirdScaledSampler ==> plan is NonNegative
            &&& plan is Unbounded ==> df is Noise || df is ShiftA || df is ShiftB || df is Shift
                || df is ShiftedNoise || df is BlendedNoise || df is Spline || df is Reference
                || df is Marker || df is BlendDensity
        }),
{
}

/// The bounds of a combination are made from those of its parts in the same
/// way as its values.
pub proof fn bounds_combine_as_the_values_do(
    op: TwoArgType,
    mapping: MappedType,
    a: DensityFunction,
    b: DensityFunction,
    nonzero1: bool,
    nonzero2: bool,
    reg: DensityRegistry,
    visiting: Seq<usize>,
)
    ensures
        ({
            let two = DensityFunction::TwoArgumentSimple {
                op,
                argument1: Box::new(a),
                argument2: Box::new(b),
                nonzero1,
                nonzero2,
            };
            let one = DensityFunction::Mapped { mapping, input: Box::new(a) };
            let plan = bounds::plan_of(two, reg, visiting);
            let (p, q) = (bounds::plan_of(a, reg, visiting), bounds::plan_of(b, reg, visiting));
            &&& op == TwoArgType::Add ==> plan == BoundsPlan::Sum(Box::new(p), Box::new(q))
            &&& op == TwoArgType::Mul ==> plan == BoundsPlan::Product(Box::new(p), Box::new(q))
            &&& op == TwoArgType::Min ==> plan == BoundsPlan::Least(Box::new(p), Box::new(q))
            &&& op == TwoArgType::Max ==> plan == BoundsPlan::Greatest(Box::new(p), Box::new(q))
            &&& bounds::plan_of(one, reg, visiting) == BoundsPlan::Mapped(mapping, Box::new(p))
        }),
{
}

/// A constant's values are that constant, a lesser or a larger of two lies
/// between those of the two, and a choice takes in both.
pub proof fn spreads_are_no_wider_than_they_must(a: Spread, b: Spread, bits: u64)
    requires
        a.wf(),
        b.wf(),
    ensures
        functions::finite_bits(bits) ==> bounds::constant_spread(bits) == Some(
            Spread { low: bits, high: bits },
        ),
        !functions::finite_bits(bits) ==> bounds::constant_spread(bits) is None,
        ({
            let least = bounds::two_argument_spread(TwoArgType::Min, a, b)->0;
            let most = bounds::two_argument_spread(TwoArgType::Max, a, b)->0;
            let either = bounds::either_spread(Some(a), Some(b))->0;
            &&& bounds::two_argument_spread(TwoArgType::Min, a, b) is Some
            &&& bounds::two_argument_spread(TwoArgType::Max, a, b) is Some
            &&& least.low == a.low || least.low == b.low
            &&& least.high == a.high || least.high == b.high
            &&& functions::numeric_rank(least.high) <= functions::numeric_rank(a.high)
            &&& functions::numeric_rank(least.high) <= functions::numeric_rank(b.high)
            &&& most.low == a.low || most.low == b.low
            &&& most.high == a.high || most.high == b.high
            &&& functions::numeric_rank(most.low) >= functions::numeric_rank(a.low)
            &&& functions::numeric_rank(most.low) >= functions::numeric_rank(b.low)
            &&& either.low == a.low || either.low == b.low
            &&& either.high == a.high || either.high == b.high
        }),
{
}

/// A combination that cannot leave the finite numbers is finite exactly where
/// its operands are.
pub proof fn finite_operands_make_finite_values(
    op: TwoArgType,
    mapping: MappedType,
    a: DensityFunction,
    b: DensityFunction,
    c: DensityFunction,
    nonzero1: bool,
    nonzero2: bool,
    noise: String,
    reg: DensityRegistry,
    visiting: Seq<usize>,
)
    requires
        op == TwoArgType::Min || op == TwoArgType::Max,
        mapping == MappedType::Abs || mapping == MappedType::Squeeze,
    ensures
        ({
            let two = DensityFunction::TwoArgumentSimple {
                op,
                argument1: Box::new(a),
                argument2: Box::new(b),
                nonzero1,
                nonzero2,
            };
            let mapped = DensityFunction::Mapped { mapping, input: Box::new(a) };
            let inverse = DensityFunction::Mapped {
                mapping: MappedType::Invert,
                input: Box::new(a),
            };
            let choice = DensityFunction::RangeChoice {
                input: Box::new(a),
                when_in_range: Box::new(b),
                when_out_of_range: Box::new(c),
            };
            let shifted = DensityFunction::ShiftedNoise {
                noise,
                shift_x: Box::new(a),
                shift_y: Box::new(b),
                shift_z: Box::new(c),
            };
            let scaled = DensityFunction::WeirdScaledSampler { input: Box::new(a) };
            let fa = bounds::finite_of(a, reg, visiting);
            let fb = bounds::finite_of(b, reg, visiting);
            let fc = bounds::finite_of(c, reg, visiting);
            &&& bounds::finite_of(two, reg, visiting) <==> fa && fb
            &&& bounds::finite_of(mapped, reg, visiting) <==> fa
            &&& !bounds::finite_of(inverse, reg, visiting)
            &&& bounds::finite_of(choice, reg, visiting) <==> fa && fb && fc
            &&& bounds::finite_of(shifted, reg, visiting) <==> fa && fb && fc
            &&& bounds::finite_of(scaled, reg, visiting) <==> fa
        }),
{
}

/// A clamp is finite exactly where what it clamps and both its bounds are.
pub proof fn a_clamp_is_finite_with_its_bounds(
    a: DensityFunction,
    min: u64,
    max: u64,
    reg: DensityRegistry,
    visiting: Seq<usize>,
)
    ensures
        bounds::finite_of(
            DensityFunction::Clamp { input: Box::new(a), min, max },
            reg,
            visiting,
        ) <==> bounds::finite_of(a, reg, visiting) && functions::finite_bits(min)
            && functions::finite_bits(max),
{
}

/// A density follows its first channel where it is that channel, squeezed or
/// not, or the lesser of two of which the first follows it; or where the first
/// holds none and the second follows it. No other combination does.
pub proof fn a_density_follows_its_first_channel_through_minima(
    df: DensityFunction,
    reg: DensityRegistry,
    visiting: Seq<usize>,
    first: bool,
)
    requires
        !(df is Reference),
    ensures
        ({
            let said = bounds::nonpositive_of(df, reg, visiting, first);
            let interpolated = df is Marker && df->kind == MarkerType::Interpolated;
            let squeezed = df is Mapped && df->mapping == MappedType::Squeeze;
            let least = df is TwoArgumentSimple && df->op == TwoArgType::Min;
            &&& interpolated ==> said == (first, false)
            &&& df is Marker && !interpolated ==> said == bounds::nonpositive_of(
                *df->wrapped,
                reg,
                visiting,
                first,
            )
            &&& squeezed ==> said == bounds::nonpositive_of(
                *df->Mapped_input,
                reg,
                visiting,
                first,
            )
            &&& least ==> ({
                let one = bounds::nonpositive_of(*df->argument1, reg, visiting, first);
                let other = bounds::nonpositive_of(*df->argument2, reg, visiting, one.1);
                said.0 <==> one.0 || other.0
            })
            &&& !(df is Marker) && !squeezed && !least ==> !said.0 && (said.1 <==> first
                && bounds::first_channel(df, reg, visiting) is None)
        }),
{
}

/// A pattern is finite where its exponent is not all ones, zero where only its
/// sign may be set, and not a number where its exponent is all ones and its
/// fraction is not zero.
pub proof fn patterns_are_read_by_their_exponent(bits: u64)
    ensures
        functions::finite_bits(bits) <==> bits as int / 0x10_0000_0000_0000 % 2048 != 2047,
        functions::nan_bits(bits) <==> bits as int / 0x10_0000_0000_0000 % 2048 == 2047 && bits
            as int % 0x10_0000_0000_0000 != 0,
        functions::zero_bits(bits) <==> bits == 0 || bits == 0x8000_0000_0000_0000,
{
}

/// Patterns compare as the numbers do: a sign turns the order around, the two
/// zeros are equal, and what is no number compares with nothing.
pub proof fn patterns_compare_as_numbers(a: u64, b: u64)
    requires
        a < 0x8000_0000_0000_0000,
        b < 0x8000_0000_0000_0000,
    ensures
        ({
            let minus_a = (a + 0x8000_0000_0000_0000) as u64;
            let minus_b = (b + 0x8000_0000_0000_0000) as u64;
            let numbers = !functions::nan_bits(a) && !functions::nan_bits(b);
            &&& functions::at_least_bits(a, b) <==> numbers && a >= b
            &&& functions::at_least_bits(minus_b, minus_a) <==> numbers && a >= b
            &&& functions::at_least_bits(a, minus_b) <==> numbers
            &&& functions::at_least_bits(minus_a, b) <==> numbers && a == 0 && b == 0
        }),
{
}

/// A magnitude counts up by ones through the first two spans of patterns, and
/// each further span steps twice as far as the one before.
pub proof fn magnitudes_double_with_each_exponent(m: int)
    requires
        0 <= m,
    ensures
        m < 0x20_0000_0000_0000 ==> magnitude::value(m) == m,
        m >= 0x10_0000_0000_0000 ==> magnitude::value(m + 0x10_0000_0000_0000) == 2
            * magnitude::value(m),
{
    let unit = magnitude::UNIT as int;
    vstd::arithmetic::power2::lemma2_to64();
    if unit <= m < 2 * unit {
        assert(m / unit == 1 && m % unit == m - unit);
        assert((unit + m % unit) * 1 == m) by (nonlinear_arith)
            requires
                m % unit == m - unit,
        ;
    }
    if m >= unit {
        let e = (m / unit - 1) as nat;
        assert((m + unit) / unit == m / unit + 1 && (m + unit) % unit == m % unit);
        vstd::arithmetic::power2::lemma_pow2_unfold(e + 1);
        let p = vstd::arithmetic::power2::pow2(e) as int;
        let f = unit + m % unit;
        assert(f * (2 * p) == 2 * (f * p)) by (nonlinear_arith);
    }
}

} // verus!
