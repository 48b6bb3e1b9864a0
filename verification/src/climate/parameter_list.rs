//! R-tree backed parameter list for climate-based biome lookup.
//!
//! The tree is built once, then flattened into a breadth-first array where the
//! children of one parent occupy adjacent places, which is what the
//! nearest-neighbor search walks.

use crate::climate::order;
use crate::climate::order::{stable_order, Key};
use crate::climate::tree_shape;
use crate::climate::types;
use crate::climate::types::{Parameter, ParameterPoint, TargetPoint, PARAMETER_COUNT};
use std::collections::VecDeque;
use vstd::prelude::*;

verus! {

/// Maximum children per tree node.
pub const CHILDREN_PER_NODE: usize = 6;

/// The most entries a list can hold so that every node has a 32-bit place: the
/// tree has fewer than twice as many nodes.
pub const MAX_ENTRIES: usize = 0x8000_0000;

// ---------------------------------------------------------------------------
// Boxes
// ---------------------------------------------------------------------------
/// A bounding box: one range per dimension.
pub type Space = Seq<Parameter>;

/// A box with one 32-bit range per dimension.
pub open spec fn space_fits(space: Space) -> bool {
    &&& space.len() == 7
    &&& forall|d: int| 0 <= d < 7 ==> parameter_fits(#[trigger] space[d])
}

pub open spec fn parameter_fits(p: Parameter) -> bool {
    i32::MIN <= p.min <= i32::MAX && i32::MIN <= p.max <= i32::MAX
}

/// The smallest box around two.
pub open spec fn spans(a: Space, b: Space) -> Space {
    Seq::new(7, |d: int| types::spanned(a[d], b[d]))
}

/// The smallest box around all of several.
pub open spec fn hull(spaces: Seq<Space>) -> Space
    decreases spaces.len(),
{
    if spaces.len() <= 1 {
        spaces[0]
    } else {
        spans(spaces.last(), hull(spaces.drop_last()))
    }
}

/// Half of a number, rounded toward zero.
pub open spec fn half(x: int) -> int {
    if x >= 0 {
        x / 2
    } else {
        -((-x) / 2)
    }
}

/// The middle of a range.
pub open spec fn center(p: Parameter) -> int {
    half(p.min + p.max)
}

pub open spec fn absolute(x: int) -> int {
    if x >= 0 {
        x
    } else {
        -x
    }
}

/// The summed widths of the first `n` ranges of a box.
pub open spec fn width_sum(space: Space, n: nat) -> int
    decreases n,
{
    if n == 0 {
        0
    } else {
        width_sum(space, (n - 1) as nat) + absolute(space[n - 1].max - space[n - 1].min)
    }
}

/// The summed distances of the first `n` centers from the origin.
pub open spec fn center_sum(space: Space, n: nat) -> int
    decreases n,
{
    if n == 0 {
        0
    } else {
        center_sum(space, (n - 1) as nat) + absolute(center(space[n - 1]))
    }
}

proof fn lemma_spans_fit(a: Space, b: Space)
    requires
        space_fits(a),
        space_fits(b),
    ensures
        space_fits(spans(a, b)),
{
    assert forall|d: int| 0 <= d < 7 implies parameter_fits(#[trigger] spans(a, b)[d]) by {
        assert(parameter_fits(a[d]));
        assert(parameter_fits(b[d]));
    }
}

pub proof fn lemma_hull_fits(spaces: Seq<Space>)
    requires
        spaces.len() > 0,
        forall|i: int| 0 <= i < spaces.len() ==> space_fits(#[trigger] spaces[i]),
    ensures
        space_fits(hull(spaces)),
    decreases spaces.len(),
{
    if spaces.len() > 1 {
        lemma_hull_fits(spaces.drop_last());
        lemma_spans_fit(spaces.last(), hull(spaces.drop_last()));
    }
}

fn half_of(x: i64) -> (r: i64)
    requires
        x > i64::MIN,
    ensures
        r == half(x as int),
{
    if x >= 0 {
        x / 2
    } else {
        -((-x) / 2)
    }
}

fn center_of(p: &Parameter) -> (r: i64)
    requires
        parameter_fits(*p),
    ensures
        r == center(*p),
        i32::MIN <= r <= i32::MAX,
{
    half_of(p.min + p.max)
}

fn absolute_of(x: i64) -> (r: i64)
    requires
        x > i64::MIN,
    ensures
        r == absolute(x as int),
{
    if x >= 0 {
        x
    } else {
        -x
    }
}

/// The box around two.
fn span_spaces(a: &[Parameter; 7], b: &[Parameter; 7]) -> (r: [Parameter; 7])
    ensures
        r@ == spans(a@, b@),
{
    let mut r = *a;
    let mut d: usize = 0;
    while d < PARAMETER_COUNT
        invariant
            d <= 7,
            forall|e: int| 0 <= e < d ==> r@[e] == types::spanned(a@[e], b@[e]),
            forall|e: int| d <= e < 7 ==> r@[e] == a@[e],
        decreases 7 - d,
    {
        r[d] = a[d].span_with(Some(&b[d]));
        d += 1;
    }
    assert(r@ == spans(a@, b@));
    r
}

/// Calculate the cost of a bounding box (sum of range widths).
pub fn cost(parameter_space: &[Parameter; 7]) -> (r: i64)
    requires
        space_fits(parameter_space@),
    ensures
        r == width_sum(parameter_space@, 7),
        0 <= r <= 7 * 0x1_0000_0000,
{
    let mut result: i64 = 0;
    let mut d: usize = 0;
    while d < PARAMETER_COUNT
        invariant
            d <= 7,
            space_fits(parameter_space@),
            result == width_sum(parameter_space@, d as nat),
            0 <= result <= d * 0x1_0000_0000,
        decreases 7 - d,
    {
        assert(parameter_fits(parameter_space@[d as int]));
        let p = parameter_space[d];
        result = result + absolute_of(p.max - p.min);
        d += 1;
    }
    result
}

// ---------------------------------------------------------------------------
// Entries
// ---------------------------------------------------------------------------
/// Build data used during tree construction.
#[derive(Clone, Copy)]
pub struct BuildEntry {
    pub parameter_space: [Parameter; 7],
    pub index: usize,
}

/// An entry of the list: its box and its place in the list.
#[verifier::ext_equal]
pub struct Entry {
    pub space: Space,
    pub index: nat,
}

impl View for BuildEntry {
    type V = Entry;

    open spec fn view(&self) -> Entry {
        Entry { space: self.parameter_space@, index: self.index as nat }
    }
}

/// The entries as mathematical values.
pub open spec fn entry_views(entries: Seq<BuildEntry>) -> Seq<Entry> {
    Seq::new(entries.len(), |i: int| entries[i]@)
}

/// The boxes of the entries.
pub open spec fn spaces_of(entries: Seq<Entry>) -> Seq<Space> {
    Seq::new(entries.len(), |i: int| entries[i].space)
}

pub open spec fn entries_fit(entries: Seq<Entry>) -> bool {
    forall|i: int| 0 <= i < entries.len() ==> space_fits((#[trigger] entries[i]).space)
}

/// `items` arranged by the stable ordering of their keys.
pub open spec fn arranged<A>(items: Seq<A>, keys: Seq<Seq<i64>>) -> Seq<A> {
    Seq::new(items.len(), |i: int| items[order::ordering(keys)[i]])
}

/// Sort key by total magnitude of centers across all dimensions.
pub open spec fn magnitude_key(space: Space) -> Seq<i64> {
    seq![center_sum(space, 7) as i64, 0, 0, 0, 0, 0, 0]
}

/// Sort key by a dimension, with the following dimensions as tie-breakers.
pub open spec fn dimension_key(space: Space, dimension: int) -> Seq<i64> {
    Seq::new(7, |o: int| center(space[(dimension + o) % 7]) as i64)
}

/// The same over the centers' distances from the origin.
pub open spec fn distance_key(space: Space, dimension: int) -> Seq<i64> {
    Seq::new(7, |o: int| absolute(center(space[(dimension + o) % 7])) as i64)
}

pub open spec fn magnitude_keys(spaces: Seq<Space>) -> Seq<Seq<i64>> {
    Seq::new(spaces.len(), |i: int| magnitude_key(spaces[i]))
}

pub open spec fn dimension_keys(spaces: Seq<Space>, dimension: int) -> Seq<Seq<i64>> {
    Seq::new(spaces.len(), |i: int| dimension_key(spaces[i], dimension))
}

pub open spec fn distance_keys(spaces: Seq<Space>, dimension: int) -> Seq<Seq<i64>> {
    Seq::new(spaces.len(), |i: int| distance_key(spaces[i], dimension))
}

/// Entries sorted by a dimension, with tie-breaking by the following ones.
pub open spec fn by_dimension(entries: Seq<Entry>, dimension: int) -> Seq<Entry> {
    arranged(entries, dimension_keys(spaces_of(entries), dimension))
}

/// Entries sorted by total magnitude of their centers.
pub open spec fn by_magnitude(entries: Seq<Entry>) -> Seq<Entry> {
    arranged(entries, magnitude_keys(spaces_of(entries)))
}

fn magnitude_key_of(space: &[Parameter; 7]) -> (r: Key)
    requires
        space_fits(space@),
    ensures
        r@ == magnitude_key(space@),
{
    let mut total: i64 = 0;
    let mut d: usize = 0;
    while d < PARAMETER_COUNT
        invariant
            d <= 7,
            space_fits(space@),
            total == center_sum(space@, d as nat),
            0 <= total <= d * 0x1_0000_0000,
        decreases 7 - d,
    {
        assert(parameter_fits(space@[d as int]));
        total = total + absolute_of(center_of(&space[d]));
        d += 1;
    }
    let r: Key = [total, 0, 0, 0, 0, 0, 0];
    assert(r@ == magnitude_key(space@));
    r
}

fn dimension_key_of(space: &[Parameter; 7], dimension: usize, absolute_value: bool) -> (r: Key)
    requires
        space_fits(space@),
        dimension < 7,
    ensures
        r@ == if absolute_value {
            distance_key(space@, dimension as int)
        } else {
            dimension_key(space@, dimension as int)
        },
{
    let ghost want = if absolute_value {
        distance_key(space@, dimension as int)
    } else {
        dimension_key(space@, dimension as int)
    };
    let mut r: Key = [0, 0, 0, 0, 0, 0, 0];
    let mut offset: usize = 0;
    while offset < PARAMETER_COUNT
        invariant
            offset <= 7,
            dimension < 7,
            space_fits(space@),
            want == if absolute_value {
                distance_key(space@, dimension as int)
            } else {
                dimension_key(space@, dimension as int)
            },
            forall|o: int| 0 <= o < offset ==> r@[o] == want[o],
        decreases 7 - offset,
    {
        let d: usize = (dimension + offset) % PARAMETER_COUNT;
        assert(parameter_fits(space@[d as int]));
        let middle: i64 = center_of(&space[d]);
        r[offset] =
        if absolute_value {
            absolute_of(middle)
        } else {
            middle
        };
        offset += 1;
    }
    assert(r@ == want);
    r
}

/// The entries in the given order.
fn reorder(entries: &Vec<BuildEntry>, items: &Vec<usize>) -> (r: Vec<BuildEntry>)
    requires
        items@.len() == entries@.len(),
        forall|a: int| 0 <= a < items@.len() ==> items@[a] < entries@.len(),
    ensures
        r@ == Seq::new(items@.len(), |a: int| entries@[items@[a] as int]),
{
    let mut out: Vec<BuildEntry> = Vec::with_capacity(items.len());
    let mut a: usize = 0;
    while a < items.len()
        invariant
            a <= items@.len(),
            items@.len() == entries@.len(),
            forall|b: int| 0 <= b < items@.len() ==> items@[b] < entries@.len(),
            out@.len() == a,
            forall|b: int| 0 <= b < a ==> out@[b] == entries@[items@[b] as int],
        decreases items@.len() - a,
    {
        out.push(entries[items[a]]);
        a += 1;
    }
    out
}

/// Sort entries by a dimension, with tiebreaking by subsequent dimensions.
fn sort_entries(entries: &Vec<BuildEntry>, dimension: usize) -> (r: Vec<BuildEntry>)
    requires
        entries_fit(entry_views(entries@)),
        dimension < 7,
    ensures
        entry_views(r@) == by_dimension(entry_views(entries@), dimension as int),
        r@.len() == entries@.len(),
{
    let ghost views = entry_views(entries@);
    let ghost want = dimension_keys(spaces_of(views), dimension as int);
    let mut keys: Vec<Key> = Vec::with_capacity(entries.len());
    let mut i: usize = 0;
    while i < entries.len()
        invariant
            i <= entries@.len(),
            views == entry_views(entries@),
            want == dimension_keys(spaces_of(views), dimension as int),
            entries_fit(views),
            dimension < 7,
            keys@.len() == i,
            forall|j: int| 0 <= j < i ==> (#[trigger] keys@[j])@ == want[j],
        decreases entries@.len() - i,
    {
        assert(space_fits(views[i as int].space));
        keys.push(dimension_key_of(&entries[i].parameter_space, dimension, false));
        i += 1;
    }
    assert(order::key_views(keys@) == want);
    let items = stable_order(&keys);
    proof {
        assert forall|a: int| 0 <= a < items@.len() implies items@[a] < entries@.len() by {
            assert(order::as_ints(items@)[a] < keys@.len());
        }
    }
    let r = reorder(entries, &items);
    assert(entry_views(r@) == by_dimension(views, dimension as int)) by {
        assert forall|a: int| 0 <= a < r@.len() implies entry_views(r@)[a] == by_dimension(
            views,
            dimension as int,
        )[a] by {
            assert(order::as_ints(items@)[a] == items@[a]);
        }
    }
    r
}

/// Sort entries by total magnitude of centers across all dimensions.
fn sort_by_magnitude(entries: &Vec<BuildEntry>) -> (r: Vec<BuildEntry>)
    requires
        entries_fit(entry_views(entries@)),
    ensures
        entry_views(r@) == by_magnitude(entry_views(entries@)),
        r@.len() == entries@.len(),
{
    let ghost views = entry_views(entries@);
    let ghost want = magnitude_keys(spaces_of(views));
    let mut keys: Vec<Key> = Vec::with_capacity(entries.len());
    let mut i: usize = 0;
    while i < entries.len()
        invariant
            i <= entries@.len(),
            views == entry_views(entries@),
            want == magnitude_keys(spaces_of(views)),
            entries_fit(views),
            keys@.len() == i,
            forall|j: int| 0 <= j < i ==> (#[trigger] keys@[j])@ == want[j],
        decreases entries@.len() - i,
    {
        assert(space_fits(views[i as int].space));
        keys.push(magnitude_key_of(&entries[i].parameter_space));
        i += 1;
    }
    assert(order::key_views(keys@) == want);
    let items = stable_order(&keys);
    proof {
        assert forall|a: int| 0 <= a < items@.len() implies items@[a] < entries@.len() by {
            assert(order::as_ints(items@)[a] < keys@.len());
        }
    }
    let r = reorder(entries, &items);
    assert(entry_views(r@) == by_magnitude(views)) by {
        assert forall|a: int| 0 <= a < r@.len() implies entry_views(r@)[a] == by_magnitude(views)[a] by {
            assert(order::as_ints(items@)[a] == items@[a]);
        }
    }
    r
}

// ---------------------------------------------------------------------------
// Buckets
// ---------------------------------------------------------------------------
/// The largest power of six below `total` that is at least `power`.
pub open spec fn power_below(power: nat, total: nat) -> nat
    decreases total - power,
{
    if power > 0 && power * 6 < total {
        power_below(power * 6, total)
    } else {
        power
    }
}

/// The bucket size for `total` entries: the largest power of six below it.
pub open spec fn bucket_size(total: nat) -> nat {
    power_below(1, total)
}

pub proof fn lemma_bucket_size(total: nat)
    requires
        total >= 2,
    ensures
        1 <= bucket_size(total) < total,
        bucket_size(total) * 6 >= total,
{
    lemma_power_below(1, total);
}

proof fn lemma_power_below(power: nat, total: nat)
    requires
        1 <= power < total,
    ensures
        power <= power_below(power, total) < total,
        power_below(power, total) * 6 >= total,
    decreases total - power,
{
    if power * 6 < total {
        lemma_power_below(power * 6, total);
    }
}

/// Compute the expected bucket size: the largest power of six below `total`.
pub fn expected_children_count(total: usize) -> (r: usize)
    requires
        total >= 2,
    ensures
        r == bucket_size(total as nat),
{
    let limit: usize = (total - 1) / CHILDREN_PER_NODE;
    let mut power: usize = 1;
    while power <= limit
        invariant
            total >= 2,
            limit == (total - 1) / 6,
            1 <= power < total,
            bucket_size(total as nat) == power_below(power as nat, total as nat),
        decreases total - power,
    {
        power = power * CHILDREN_PER_NODE;
    }
    power
}

/// How many buckets of `size` it takes for `len` entries.
pub open spec fn bucket_count(len: nat, size: nat) -> nat {
    ((len + size - 1) / size as int) as nat
}

/// Where bucket `k` starts.
pub open spec fn bucket_start(k: int, size: nat, len: nat) -> int {
    if k * size < len {
        k * size
    } else {
        len as int
    }
}

/// Bucket `k` of the entries.
pub open spec fn bucket(entries: Seq<Entry>, size: nat, k: int) -> Seq<Entry> {
    entries.subrange(
        bucket_start(k, size, entries.len()),
        bucket_start(k + 1, size, entries.len()),
    )
}

/// The buckets of the entries, in order.
pub open spec fn buckets(entries: Seq<Entry>, size: nat) -> Seq<Seq<Entry>> {
    Seq::new(bucket_count(entries.len(), size), |k: int| bucket(entries, size, k))
}

/// The boxes around the buckets.
pub open spec fn bucket_hulls(list: Seq<Seq<Entry>>) -> Seq<Space> {
    Seq::new(list.len(), |k: int| hull(spaces_of(list[k])))
}

/// The summed costs of the first `n` boxes.
pub open spec fn cost_sum(spaces: Seq<Space>, n: nat) -> int
    decreases n,
{
    if n == 0 {
        0
    } else {
        cost_sum(spaces, (n - 1) as nat) + width_sum(spaces[n - 1], 7)
    }
}

pub proof fn lemma_bucket_count(len: nat, size: nat)
    requires
        1 <= size < len,
        size * 6 >= len,
    ensures
        2 <= bucket_count(len, size) <= 6,
        (bucket_count(len, size) - 1) * size < len,
        bucket_count(len, size) * size >= len,
{
    let n = bucket_count(len, size) as int;
    assert(n == (len + size - 1) / size as int);
    assert(n * size <= len + size - 1 < (n + 1) * size) by (nonlinear_arith)
        requires
            n == (len + size - 1) / size as int,
            size >= 1,
    ;
    assert((n + 1) * size == n * size + size) by (nonlinear_arith);
    assert((n - 1) * size == n * size - size) by (nonlinear_arith);
    assert(n >= 2) by (nonlinear_arith)
        requires
            n * size >= len,
            size < len,
            size >= 1,
    ;
    assert(n <= 6) by (nonlinear_arith)
        requires
            (n - 1) * size < len,
            size * 6 >= len,
            size >= 1,
    ;
}

pub proof fn lemma_bucket_start(k: int, size: nat, len: nat)
    requires
        1 <= size < len,
        size * 6 >= len,
        0 <= k < bucket_count(len, size),
    ensures
        bucket_start(k, size, len) == k * size,
        0 <= bucket_start(k, size, len) < bucket_start(k + 1, size, len) <= len,
        bucket_start(k + 1, size, len) <= bucket_start(k, size, len) + size,
        bucket_start(k + 1, size, len) == if k * size + size <= len {
            k * size + size
        } else {
            len as int
        },
{
    lemma_bucket_count(len, size);
    let n = bucket_count(len, size) as int;
    assert(k * size <= (n - 1) * size) by (nonlinear_arith)
        requires
            k <= n - 1,
            size >= 1,
    ;
    assert((k + 1) * size == k * size + size) by (nonlinear_arith);
    assert(k * size >= 0) by (nonlinear_arith)
        requires
            k >= 0,
            size >= 1,
    ;
}

pub proof fn lemma_buckets(entries: Seq<Entry>)
    requires
        entries.len() >= 7,
        entries_fit(entries),
    ensures
        ({
            let list = buckets(entries, bucket_size(entries.len()));
            &&& 2 <= list.len() <= 6
            &&& forall|k: int|
                0 <= k < list.len() ==> {
                    &&& 1 <= (#[trigger] list[k]).len() < entries.len()
                    &&& list[k].len() <= bucket_size(entries.len())
                    &&& entries_fit(list[k])
                    &&& space_fits(hull(spaces_of(list[k])))
                }
        }),
{
    let size = bucket_size(entries.len());
    let list = buckets(entries, size);
    lemma_bucket_size(entries.len());
    lemma_bucket_count(entries.len(), size);
    assert forall|k: int| 0 <= k < list.len() implies {
        &&& 1 <= (#[trigger] list[k]).len() < entries.len()
        &&& list[k].len() <= size
        &&& entries_fit(list[k])
        &&& space_fits(hull(spaces_of(list[k])))
    } by {
        lemma_bucket_start(k, size, entries.len());
        let one = list[k];
        let start = bucket_start(k, size, entries.len());
        assert forall|i: int| 0 <= i < one.len() implies space_fits((#[trigger] one[i]).space) by {
            assert(one[i] == entries[start + i]);
        }
        assert forall|i: int| 0 <= i < spaces_of(one).len() implies space_fits(
            #[trigger] spaces_of(one)[i],
        ) by {
            assert(space_fits(one[i].space));
        }
        lemma_hull_fits(spaces_of(one));
    }
}

/// Where the search for the best dimension stands.
pub struct Split {
    /// The entries as the last sort left them.
    pub current: Seq<Entry>,
    pub cost: int,
    pub dimension: nat,
    /// The entries as the best dimension's sort left them.
    pub best: Seq<Entry>,
}

/// The search after the first `n` dimensions: each sorts what the one before
/// it left, and the first of the cheapest is kept.
pub open spec fn split_after(entries: Seq<Entry>, n: nat) -> Split
    decreases n,
{
    if n == 0 {
        Split { current: entries, cost: i64::MAX as int, dimension: 0, best: entries }
    } else {
        let before = split_after(entries, (n - 1) as nat);
        let current = by_dimension(before.current, n - 1);
        let hulls = bucket_hulls(buckets(current, bucket_size(entries.len())));
        let total = cost_sum(hulls, hulls.len());
        if before.cost > total {
            Split { current, cost: total, dimension: (n - 1) as nat, best: current }
        } else {
            Split { current, ..before }
        }
    }
}

/// The buckets of the best dimension, sorted by their boxes along it.
pub open spec fn chosen_buckets(entries: Seq<Entry>) -> Seq<Seq<Entry>> {
    let split = split_after(entries, 7);
    let list = buckets(split.best, bucket_size(entries.len()));
    arranged(list, distance_keys(bucket_hulls(list), split.dimension as int))
}

pub proof fn lemma_arranged_fits(entries: Seq<Entry>, keys: Seq<Seq<i64>>)
    requires
        entries_fit(entries),
        keys.len() == entries.len(),
    ensures
        entries_fit(arranged(entries, keys)),
        arranged(entries, keys).len() == entries.len(),
{
    order::stable_ordering_exists(keys);
    let after = arranged(entries, keys);
    assert forall|i: int| 0 <= i < after.len() implies space_fits((#[trigger] after[i]).space) by {
        let from = order::ordering(keys)[i];
        assert(0 <= from < keys.len());
        assert(after[i] == entries[from]);
    }
}

/// The box around a bucket of entries.
fn hull_of_range(entries: &Vec<BuildEntry>, start: usize, end: usize) -> (r: [Parameter; 7])
    requires
        start < end <= entries@.len(),
    ensures
        r@ == hull(spaces_of(entry_views(entries@).subrange(start as int, end as int))),
{
    let ghost views = entry_views(entries@);
    let mut r = entries[start].parameter_space;
    let mut i: usize = start + 1;
    assert(views.subrange(start as int, i as int) == seq![views[start as int]]);
    assert(spaces_of(views.subrange(start as int, i as int))[0] == r@);
    while i < end
        invariant
            start < i <= end <= entries@.len(),
            views == entry_views(entries@),
            r@ == hull(spaces_of(views.subrange(start as int, i as int))),
        decreases end - i,
    {
        proof {
            let longer = spaces_of(views.subrange(start as int, i + 1));
            assert(longer.drop_last() == spaces_of(views.subrange(start as int, i as int)));
            assert(longer.last() == views[i as int].space);
        }
        r = span_spaces(&entries[i].parameter_space, &r);
        i += 1;
    }
    r
}

/// The boxes around the buckets of the current entry order.
fn bucket_boxes(entries: &Vec<BuildEntry>, size: usize) -> (r: Vec<[Parameter; 7]>)
    requires
        entries@.len() >= 7,
        entries_fit(entry_views(entries@)),
        size == bucket_size(entries@.len()),
    ensures
        ({
            let hulls = bucket_hulls(buckets(entry_views(entries@), size as nat));
            &&& r@.len() == hulls.len()
            &&& forall|k: int| 0 <= k < hulls.len() ==> (#[trigger] r@[k])@ == hulls[k]
        }),
{
    let ghost views = entry_views(entries@);
    let ghost len = entries@.len();
    let ghost count = bucket_count(len, size as nat);
    let ghost hulls = bucket_hulls(buckets(views, size as nat));
    proof {
        lemma_bucket_size(len);
        lemma_bucket_count(len, size as nat);
    }
    let mut out: Vec<[Parameter; 7]> = Vec::new();
    let mut start: usize = 0;
    assert(0 * size == 0) by (nonlinear_arith);
    while start < entries.len()
        invariant
            views == entry_views(entries@),
            len == entries@.len(),
            len == views.len(),
            1 <= size < len,
            size * 6 >= len,
            count == bucket_count(len, size as nat),
            (count - 1) * size < len,
            count * size >= len,
            hulls == bucket_hulls(buckets(views, size as nat)),
            out@.len() <= count,
            start == bucket_start(out@.len() as int, size as nat, len),
            start <= len,
            forall|k: int| 0 <= k < out@.len() ==> (#[trigger] out@[k])@ == hulls[k],
        decreases len - start,
    {
        let ghost k = out@.len() as int;
        proof {
            if k >= count {
                assert(k * size >= count * size) by (nonlinear_arith)
                    requires
                        k >= count,
                        size >= 1,
                ;
            }
            lemma_bucket_start(k, size as nat, len);
        }
        let end: usize = if entries.len() - start >= size {
            start + size
        } else {
            entries.len()
        };
        let ps = hull_of_range(entries, start, end);
        assert(bucket(views, size as nat, k) == views.subrange(start as int, end as int));
        assert(hulls[k] == hull(spaces_of(buckets(views, size as nat)[k])));
        out.push(ps);
        start = end;
    }
    proof {
        let k = out@.len() as int;
        if k < count {
            lemma_bucket_start(k, size as nat, len);
        }
    }
    out
}

/// The summed cost of the boxes.
fn total_cost(boxes: &Vec<[Parameter; 7]>) -> (r: i64)
    requires
        boxes@.len() <= 6,
        forall|k: int| 0 <= k < boxes@.len() ==> space_fits((#[trigger] boxes@[k])@),
    ensures
        r == cost_sum(
            Seq::new(boxes@.len(), |k: int| boxes@[k]@),
            boxes@.len(),
        ),
        0 <= r < i64::MAX,
{
    let ghost spaces: Seq<Space> = Seq::new(boxes@.len(), |k: int| boxes@[k]@);
    let mut total: i64 = 0;
    let mut k: usize = 0;
    while k < boxes.len()
        invariant
            k <= boxes@.len() <= 6,
            spaces == Seq::new(boxes@.len(), |k: int| boxes@[k]@),
            forall|k: int| 0 <= k < boxes@.len() ==> space_fits((#[trigger] boxes@[k])@),
            total == cost_sum(spaces, k as nat),
            0 <= total <= k * 7 * 0x1_0000_0000,
        decreases boxes@.len() - k,
    {
        total = total + cost(&boxes[k]);
        k += 1;
    }
    total
}

// ---------------------------------------------------------------------------
// Tree construction
// ---------------------------------------------------------------------------
/// R-tree node used during construction only. After building, the tree is
/// flattened into a list of [`FlatNode`] for search.
pub enum RTreeNode {
    /// Leaf node containing a single biome entry.
    Leaf { parameter_space: [Parameter; 7], value_index: usize },
    /// Internal node with children and a bounding box.
    SubTree { parameter_space: [Parameter; 7], children: Vec<RTreeNode> },
}

/// The tree as a mathematical value.
#[verifier::ext_equal]
pub enum Tree {
    Leaf { space: Space, index: nat },
    Node { space: Space, children: Seq<Tree> },
}

impl Tree {
    /// The box of a node.
    pub open spec fn space(self) -> Space {
        match self {
            Tree::Leaf { space, index } => space,
            Tree::Node { space, children } => space,
        }
    }
}

/// The tree that a node is the root of.
pub open spec fn tree_of(node: RTreeNode) -> Tree
    decreases node,
{
    match node {
        RTreeNode::Leaf { parameter_space, value_index } => Tree::Leaf {
            space: parameter_space@,
            index: value_index as nat,
        },
        RTreeNode::SubTree { parameter_space, children } => Tree::Node {
            space: parameter_space@,
            children: Seq::new(
                children@.len(),
                |i: int|
                    if 0 <= i < children@.len() {
                        tree_of(children@[i])
                    } else {
                        Tree::Leaf { space: Seq::empty(), index: 0 }
                    },
            ),
        },
    }
}

pub open spec fn trees_of(nodes: Seq<RTreeNode>) -> Seq<Tree> {
    Seq::new(nodes.len(), |i: int| tree_of(nodes[i]))
}

pub open spec fn tree_spaces(trees: Seq<Tree>) -> Seq<Space> {
    Seq::new(trees.len(), |i: int| trees[i].space())
}

/// The leaf of an entry.
pub open spec fn leaf_of(entry: Entry) -> Tree {
    Tree::Leaf { space: entry.space, index: entry.index }
}

/// The tree over the entries: a leaf for one; one level of leaves, sorted by
/// magnitude, for up to six; else the trees over the chosen buckets.
pub open spec fn build(entries: Seq<Entry>) -> Tree
    decreases entries.len(),
{
    if entries.len() <= 1 {
        leaf_of(entries[0])
    } else if entries.len() <= 6 {
        let sorted = by_magnitude(entries);
        Tree::Node {
            space: hull(spaces_of(sorted)),
            children: Seq::new(sorted.len(), |i: int| leaf_of(sorted[i])),
        }
    } else {
        let list = chosen_buckets(entries);
        let children = Seq::new(
            list.len(),
            |i: int|
                if list[i].len() < entries.len() {
                    build(list[i])
                } else {
                    leaf_of(entries[0])
                },
        );
        Tree::Node { space: hull(tree_spaces(children)), children }
    }
}

impl RTreeNode {
    /// Get the parameter space (bounding box) of this node.
    pub fn parameter_space(&self) -> (r: &[Parameter; 7])
        ensures
            r@ == tree_of(*self).space(),
    {
        match self {
            RTreeNode::Leaf { parameter_space, value_index: _ } => parameter_space,
            RTreeNode::SubTree { parameter_space, children: _ } => parameter_space,
        }
    }
}

/// Build the bounding box for a set of child nodes.
pub fn build_parameter_space(children: &Vec<RTreeNode>) -> (r: [Parameter; 7])
    requires
        children@.len() > 0,
    ensures
        r@ == hull(tree_spaces(trees_of(children@))),
{
    let ghost spaces = tree_spaces(trees_of(children@));
    let mut r = *children[0].parameter_space();
    let mut i: usize = 1;
    assert(spaces.subrange(0, 1) == seq![spaces[0]]);
    while i < children.len()
        invariant
            1 <= i <= children@.len(),
            spaces == tree_spaces(trees_of(children@)),
            r@ == hull(spaces.subrange(0, i as int)),
        decreases children@.len() - i,
    {
        proof {
            let longer = spaces.subrange(0, i + 1);
            assert(longer.drop_last() == spaces.subrange(0, i as int));
            assert(longer.last() == spaces[i as int]);
        }
        r = span_spaces(children[i].parameter_space(), &r);
        i += 1;
    }
    assert(spaces.subrange(0, spaces.len() as int) == spaces);
    r
}

pub proof fn lemma_split(entries: Seq<Entry>, n: nat)
    requires
        entries.len() >= 7,
        entries_fit(entries),
        n <= 7,
    ensures
        ({
            let split = split_after(entries, n);
            &&& entries_fit(split.current)
            &&& entries_fit(split.best)
            &&& split.current.len() == entries.len()
            &&& split.best.len() == entries.len()
            &&& split.dimension < 7
        }),
    decreases n,
{
    if n > 0 {
        lemma_split(entries, (n - 1) as nat);
        let before = split_after(entries, (n - 1) as nat);
        lemma_arranged_fits(
            before.current,
            dimension_keys(spaces_of(before.current), n - 1),
        );
    }
}

/// The chosen buckets are between two and six, none empty and all smaller than
/// the whole.
pub proof fn lemma_chosen_buckets(entries: Seq<Entry>)
    requires
        entries.len() >= 7,
        entries_fit(entries),
    ensures
        2 <= chosen_buckets(entries).len() <= 6,
        forall|k: int|
            0 <= k < chosen_buckets(entries).len() ==> {
                &&& 1 <= (#[trigger] chosen_buckets(entries)[k]).len() < entries.len()
                &&& chosen_buckets(entries)[k].len() <= bucket_size(entries.len())
                &&& entries_fit(chosen_buckets(entries)[k])
            },
{
    lemma_split(entries, 7);
    let split = split_after(entries, 7);
    let list = buckets(split.best, bucket_size(entries.len()));
    lemma_buckets(split.best);
    let keys = distance_keys(bucket_hulls(list), split.dimension as int);
    order::stable_ordering_exists(keys);
    assert forall|k: int| 0 <= k < chosen_buckets(entries).len() implies {
        &&& 1 <= (#[trigger] chosen_buckets(entries)[k]).len() < entries.len()
        &&& chosen_buckets(entries)[k].len() <= bucket_size(entries.len())
        &&& entries_fit(chosen_buckets(entries)[k])
    } by {
        let from = order::ordering(keys)[k];
        assert(0 <= from < keys.len());
        assert(chosen_buckets(entries)[k] == list[from]);
    }
}

/// The entries of the best dimension's order, and that dimension.
fn best_split(entries: Vec<BuildEntry>) -> (r: (Vec<BuildEntry>, usize))
    requires
        entries@.len() >= 7,
        entries_fit(entry_views(entries@)),
    ensures
        entry_views(r.0@) == split_after(entry_views(entries@), 7).best,
        r.1 == split_after(entry_views(entries@), 7).dimension,
        r.1 < 7,
{
    let ghost views = entry_views(entries@);
    let size: usize = expected_children_count(entries.len());
    let mut current = entries;
    let mut best: Vec<BuildEntry> = Vec::new();
    let mut best_dim: usize = 0;
    let mut min_cost: i64 = i64::MAX;
    // Each sort starts from what the sort before it left, and the order is
    // saved when a dimension proves cheaper: later sorts do not touch it.
    let mut d: usize = 0;
    while d < PARAMETER_COUNT
        invariant
            d <= 7,
            views.len() >= 7,
            entries_fit(views),
            size == bucket_size(views.len()),
            entry_views(current@) == split_after(views, d as nat).current,
            current@.len() == views.len(),
            min_cost == split_after(views, d as nat).cost,
            best_dim == split_after(views, d as nat).dimension,
            best_dim < 7,
            d == 0 ==> min_cost == i64::MAX,
            d > 0 ==> entry_views(best@) == split_after(views, d as nat).best && min_cost
                < i64::MAX,
        decreases 7 - d,
    {
        proof {
            lemma_split(views, d as nat);
            lemma_split(views, d as nat + 1);
        }
        current = sort_entries(&current, d);
        let boxes = bucket_boxes(&current, size);
        let ghost cv = entry_views(current@);
        let ghost hulls = bucket_hulls(buckets(cv, size as nat));
        proof {
            assert(cv == by_dimension(split_after(views, d as nat).current, d as int));
            lemma_buckets(cv);
            assert forall|k: int| 0 <= k < boxes@.len() implies space_fits(
                (#[trigger] boxes@[k])@,
            ) by {
                assert(boxes@[k]@ == hulls[k]);
                assert(hulls[k] == hull(spaces_of(buckets(cv, size as nat)[k])));
            }
            let list: Seq<Space> = Seq::new(boxes@.len(), |k: int| boxes@[k]@);
            assert(list == hulls);
        }
        let total: i64 = total_cost(&boxes);
        if min_cost > total {
            min_cost = total;
            best_dim = d;
            best = current.clone();
            proof {
                lemma_entry_clone(best@, current@);
            }
        }
        d += 1;
    }
    (best, best_dim)
}

proof fn lemma_entry_clone(copy: Seq<BuildEntry>, from: Seq<BuildEntry>)
    requires
        copy.len() == from.len(),
        forall|i: int| 0 <= i < from.len() ==> copy[i] == from[i],
    ensures
        entry_views(copy) == entry_views(from),
{
}

/// A copy of a run of entries.
fn copy_range(entries: &Vec<BuildEntry>, start: usize, end: usize) -> (r: Vec<BuildEntry>)
    requires
        start <= end <= entries@.len(),
    ensures
        entry_views(r@) == entry_views(entries@).subrange(start as int, end as int),
{
    let mut out: Vec<BuildEntry> = Vec::with_capacity(end - start);
    let mut i: usize = start;
    while i < end
        invariant
            start <= i <= end <= entries@.len(),
            out@ == entries@.subrange(start as int, i as int),
        decreases end - i,
    {
        out.push(entries[i]);
        i += 1;
        assert(out@ == entries@.subrange(start as int, i as int));
    }
    assert(entry_views(out@) == entry_views(entries@).subrange(start as int, end as int));
    out
}

/// The order of the buckets by their boxes along the best dimension, by the
/// centers' distances from the origin.
fn sort_bucket_subtrees(boxes: &Vec<[Parameter; 7]>, dimension: usize) -> (r: Vec<usize>)
    requires
        dimension < 7,
        forall|k: int| 0 <= k < boxes@.len() ==> space_fits((#[trigger] boxes@[k])@),
    ensures
        ({
            let spaces: Seq<Space> = Seq::new(boxes@.len(), |k: int| boxes@[k]@);
            &&& order::as_ints(r@) == order::ordering(distance_keys(spaces, dimension as int))
            &&& r@.len() == boxes@.len()
            &&& forall|a: int| 0 <= a < r@.len() ==> #[trigger] r@[a] < boxes@.len()
        }),
{
    let ghost spaces: Seq<Space> = Seq::new(boxes@.len(), |k: int| boxes@[k]@);
    let ghost want = distance_keys(spaces, dimension as int);
    let mut keys: Vec<Key> = Vec::with_capacity(boxes.len());
    let mut k: usize = 0;
    while k < boxes.len()
        invariant
            k <= boxes@.len(),
            dimension < 7,
            spaces == Seq::new(boxes@.len(), |k: int| boxes@[k]@),
            want == distance_keys(spaces, dimension as int),
            forall|k: int| 0 <= k < boxes@.len() ==> space_fits((#[trigger] boxes@[k])@),
            keys@.len() == k,
            forall|j: int| 0 <= j < k ==> (#[trigger] keys@[j])@ == want[j],
        decreases boxes@.len() - k,
    {
        keys.push(dimension_key_of(&boxes[k], dimension, true));
        k += 1;
    }
    assert(order::key_views(keys@) == want);
    let r = stable_order(&keys);
    proof {
        assert forall|a: int| 0 <= a < r@.len() implies #[trigger] r@[a] < boxes@.len() by {
            assert(order::as_ints(r@)[a] < keys@.len());
        }
    }
    r
}

/// Build an R-tree from a list of entries.
pub fn build_tree(entries: Vec<BuildEntry>) -> (r: RTreeNode)
    requires
        entries@.len() > 0,
        entries_fit(entry_views(entries@)),
    ensures
        tree_of(r) == build(entry_views(entries@)),
    decreases entries@.len(),
{
    let ghost views = entry_views(entries@);
    if entries.len() == 1 {
        let leaf = RTreeNode::Leaf {
            parameter_space: entries[0].parameter_space,
            value_index: entries[0].index,
        };
        assert(views[0] == entries@[0]@);
        return leaf;
    }
    if entries.len() <= CHILDREN_PER_NODE {
        let sorted = sort_by_magnitude(&entries);
        let ghost sv = entry_views(sorted@);
        let mut children: Vec<RTreeNode> = Vec::with_capacity(sorted.len());
        let mut i: usize = 0;
        while i < sorted.len()
            invariant
                i <= sorted@.len(),
                sv == entry_views(sorted@),
                children@.len() == i,
                forall|j: int| 0 <= j < i ==> tree_of(#[trigger] children@[j]) == leaf_of(sv[j]),
            decreases sorted@.len() - i,
        {
            children.push(
                RTreeNode::Leaf {
                    parameter_space: sorted[i].parameter_space,
                    value_index: sorted[i].index,
                },
            );
            i += 1;
        }
        let ps = build_parameter_space(&children);
        proof {
            assert(tree_spaces(trees_of(children@)) == spaces_of(sv));
        }
        let node = RTreeNode::SubTree { parameter_space: ps, children };
        proof {
            let want: Seq<Tree> = Seq::new(sv.len(), |i: int| leaf_of(sv[i]));
            assert(tree_of(node)->children == want);
        }
        return node;
    }
    let size: usize = expected_children_count(entries.len());
    let (best, best_dim) = best_split(entries);
    let ghost split = split_after(views, 7);
    let ghost list = buckets(split.best, size as nat);
    let ghost chosen = chosen_buckets(views);
    proof {
        lemma_split(views, 7);
        lemma_buckets(split.best);
        lemma_chosen_buckets(views);
        lemma_bucket_size(views.len());
        lemma_bucket_count(views.len(), size as nat);
        assert(best@.len() == views.len());
    }
    let boxes = bucket_boxes(&best, size);
    proof {
        assert forall|k: int| 0 <= k < boxes@.len() implies space_fits(
            (#[trigger] boxes@[k])@,
        ) by {
            assert(boxes@[k]@ == bucket_hulls(list)[k]);
            assert(bucket_hulls(list)[k] == hull(spaces_of(list[k])));
        }
    }
    let items = sort_bucket_subtrees(&boxes, best_dim);
    proof {
        let spaces: Seq<Space> = Seq::new(boxes@.len(), |k: int| boxes@[k]@);
        assert(spaces == bucket_hulls(list));
    }
    let mut children: Vec<RTreeNode> = Vec::with_capacity(items.len());
    let mut a: usize = 0;
    while a < items.len()
        invariant
            a <= items@.len(),
            items@.len() == list.len(),
            boxes@.len() == list.len(),
            forall|b: int| 0 <= b < items@.len() ==> #[trigger] items@[b] < boxes@.len(),
            views.len() == entries@.len(),
            views.len() >= 7,
            best@.len() == views.len(),
            entry_views(best@) == split.best,
            1 <= size < views.len(),
            size * 6 >= views.len(),
            list == buckets(split.best, size as nat),
            chosen.len() == list.len(),
            order::as_ints(items@) == order::ordering(
                distance_keys(bucket_hulls(list), best_dim as int),
            ),
            chosen == arranged(list, distance_keys(bucket_hulls(list), best_dim as int)),
            forall|k: int|
                0 <= k < chosen.len() ==> 1 <= (#[trigger] chosen[k]).len() < views.len()
                    && entries_fit(chosen[k]),
            children@.len() == a,
            forall|b: int| 0 <= b < a ==> tree_of(#[trigger] children@[b]) == build(chosen[b]),
        decreases items@.len() - a,
    {
        let k: usize = items[a];
        proof {
            assert(order::as_ints(items@)[a as int] == k);
            assert(chosen[a as int] == list[k as int]);
            lemma_bucket_start(k as int, size as nat, views.len());
            assert(k * size <= views.len());
            assert(best.len() == best@.len());
        }
        let start: usize = k * size;
        let end: usize = if best.len() - start >= size {
            start + size
        } else {
            best.len()
        };
        let child_entries = copy_range(&best, start, end);
        assert(entry_views(child_entries@) == list[k as int]);
        assert(child_entries@.len() == list[k as int].len());
        children.push(build_tree(child_entries));
        a += 1;
    }
    let ps = build_parameter_space(&children);
    let ghost kids = trees_of(children@);
    let node = RTreeNode::SubTree { parameter_space: ps, children };
    proof {
        let want: Seq<Tree> = Seq::new(
            chosen.len(),
            |i: int|
                if chosen[i].len() < views.len() {
                    build(chosen[i])
                } else {
                    leaf_of(views[0])
                },
        );
        assert(kids =~= want);
        assert(tree_of(node)->children =~= want);
        assert(build(views)->children =~= want);
        assert(build(views).space() == hull(tree_spaces(want)));
        assert(tree_of(node).space() == hull(tree_spaces(kids)));
    }
    node
}

// ---------------------------------------------------------------------------
// Flat nodes
// ---------------------------------------------------------------------------
/// Lane count for the distance kernel. The 8th lane is padding and is held at
/// zero everywhere.
pub const LANES: usize = 8;

/// A search target laid out for [`FlatNode::distance`].
///
/// Lane 7 is padding and is always zero. Built once per lookup by
/// [`pack_target`] and then carried unchanged through the whole tree walk.
pub type PackedTarget = [i64; 8];

/// The coordinates followed by the zero of the padding lane.
pub open spec fn packed(target: Seq<i64>) -> Seq<i64> {
    target.push(0i64)
}

/// Widen a target to the kernel's lane count, zero-filling the padding lane.
pub fn pack_target(target: &[i64; 7]) -> (r: PackedTarget)
    ensures
        r@ == packed(target@),
{
    let r: PackedTarget = [
        target[0],
        target[1],
        target[2],
        target[3],
        target[4],
        target[5],
        target[6],
        0,
    ];
    assert(r@ == packed(target@));
    r
}

/// Compact node for the flattened R-tree.
///
/// Children of the same parent are stored at contiguous places in one list,
/// which is what makes iteration during search cache-efficient.
#[derive(Clone, Copy)]
pub struct FlatNode {
    /// Bounding box minimum values for each parameter dimension.
    pub mins: [i32; 7],
    /// Bounding box maximum values for each parameter dimension.
    pub maxs: [i32; 7],
    /// For leaf nodes: index into the values array.
    /// For subtree nodes: start index of the children in the nodes array.
    ///
    /// The two never coexist, so they share the word. `children_count`
    /// discriminates.
    pub payload: u32,
    /// Number of children (0 = leaf, 1..=6 = subtree).
    pub children_count: u8,
}

/// How far a coordinate lies outside a range, in wrapping arithmetic.
pub open spec fn gap(p: Parameter, t: i64) -> i64 {
    let over = vstd::wrapping::i64_specs::wrapping_sub(t, p.max);
    let under = vstd::wrapping::i64_specs::wrapping_sub(p.min, t);
    let most = if over >= under {
        over
    } else {
        under
    };
    if most >= 0 {
        most
    } else {
        0
    }
}

/// The wrapping sum of the squared gaps of the first `n` dimensions.
pub open spec fn gap_squares(space: Space, target: Seq<i64>, n: nat) -> i64
    decreases n,
{
    if n == 0 {
        0
    } else {
        let di = gap(space[n - 1], target[n - 1]);
        vstd::wrapping::i64_specs::wrapping_add(
            gap_squares(space, target, (n - 1) as nat),
            vstd::wrapping::i64_specs::wrapping_mul(di, di),
        )
    }
}

/// The squared distance from a target to a box, in wrapping arithmetic.
pub open spec fn box_distance(space: Space, target: Seq<i64>) -> i64 {
    gap_squares(space, target, 7)
}

fn gap_of(min: i64, max: i64, t: i64) -> (r: i64)
    ensures
        r == gap((Parameter { min, max }), t),
{
    let over: i64 = t.wrapping_sub(max);
    let under: i64 = min.wrapping_sub(t);
    let most: i64 = if over >= under {
        over
    } else {
        under
    };
    if most >= 0 {
        most
    } else {
        0
    }
}

impl FlatNode {
    /// The box of the node.
    pub open spec fn space(self) -> Space {
        Seq::new(7, |d: int| Parameter { min: self.mins@[d] as i64, max: self.maxs@[d] as i64 })
    }

    /// Compute the squared distance from a target point to this node's bounding box.
    ///
    /// The arithmetic is 64-bit and wraps, with no range condition on the
    /// target.
    pub fn distance(&self, target: PackedTarget) -> (r: i64)
        requires
            target@[7] == 0,
        ensures
            r == box_distance(self.space(), target@),
    {
        let ghost space = self.space();
        let mut sum: i64 = 0;
        let mut d: usize = 0;
        while d < PARAMETER_COUNT
            invariant
                d <= 7,
                space == self.space(),
                sum == gap_squares(space, target@, d as nat),
            decreases 7 - d,
        {
            let di: i64 = gap_of(self.mins[d] as i64, self.maxs[d] as i64, target[d]);
            assert(space[d as int] == (Parameter {
                min: self.mins@[d as int] as i64,
                max: self.maxs@[d as int] as i64,
            }));
            sum = sum.wrapping_add(di.wrapping_mul(di));
            d += 1;
        }
        sum
    }

    pub fn is_leaf(&self) -> (r: bool)
        ensures
            r == (self.children_count == 0),
    {
        self.children_count == 0
    }

    /// Index into the values array. Leaves only.
    pub fn value_index(&self) -> (r: u32)
        requires
            self.children_count == 0,
        ensures
            r == self.payload,
    {
        self.payload
    }

    /// Start index of this node's children. Subtrees only.
    pub fn children_start(&self) -> (r: u32)
        requires
            self.children_count != 0,
        ensures
            r == self.payload,
    {
        self.payload
    }
}

/// Narrows a bounding-box bound to the width `FlatNode` stores it at.
pub fn narrow_bound(bound: i64) -> (r: i32)
    requires
        i32::MIN <= bound <= i32::MAX,
    ensures
        r == bound,
{
    bound as i32
}

/// A node for a box, with the given payload and number of children.
fn flat_node(space: &[Parameter; 7], payload: u32, children_count: u8) -> (r: FlatNode)
    requires
        space_fits(space@),
    ensures
        r.space() == space@,
        r.payload == payload,
        r.children_count == children_count,
{
    let mut mins: [i32; 7] = [0, 0, 0, 0, 0, 0, 0];
    let mut maxs: [i32; 7] = [0, 0, 0, 0, 0, 0, 0];
    let mut d: usize = 0;
    while d < PARAMETER_COUNT
        invariant
            d <= 7,
            space_fits(space@),
            forall|e: int| 0 <= e < d ==> mins@[e] == space@[e].min && maxs@[e] == space@[e].max,
        decreases 7 - d,
    {
        assert(parameter_fits(space@[d as int]));
        mins[d] = narrow_bound(space[d].min);
        maxs[d] = narrow_bound(space[d].max);
        d += 1;
    }
    let r = FlatNode { mins, maxs, payload, children_count };
    assert(r.space() == space@);
    r
}

// ---------------------------------------------------------------------------
// Flattening
// ---------------------------------------------------------------------------
/// The children that are still to be laid out, by the place of their parent.
pub type Pending = Map<int, Seq<Tree>>;

/// The children pending for the parent at place `i`.
pub open spec fn pending_at(pending: Pending, i: int) -> Option<Seq<Tree>> {
    if pending.dom().contains(i) {
        Some(pending[i])
    } else {
        None
    }
}

/// The list holds the tree with its root at place `i`, but for the children
/// that are still pending.
pub open spec fn holds_tree(nodes: Seq<FlatNode>, i: int, tree: Tree, pending: Pending) -> bool
    decreases tree,
{
    &&& 0 <= i < nodes.len()
    &&& nodes[i].space() == tree.space()
    &&& match tree {
        Tree::Leaf { space, index } => nodes[i].children_count == 0 && nodes[i].payload == index,
        Tree::Node { space, children } => {
            &&& nodes[i].children_count == children.len()
            &&& children.len() > 0
            &&& match pending_at(pending, i) {
                Some(batch) => batch == children,
                None => forall|k: int|
                    0 <= k < children.len() ==> holds_tree(
                        nodes,
                        nodes[i].payload + k,
                        #[trigger] children[k],
                        pending,
                    ),
            }
        },
    }
}

/// The list holds the tree with its root at place `i`.
pub open spec fn represents(nodes: Seq<FlatNode>, i: int, tree: Tree) -> bool {
    holds_tree(nodes, i, tree, Map::empty())
}

/// The number of nodes of a tree.
pub open spec fn node_count(tree: Tree) -> nat
    decreases tree, 0nat,
{
    match tree {
        Tree::Leaf { space, index } => 1,
        Tree::Node { space, children } => 1 + forest_count(children, children.len()),
    }
}

/// The number of nodes of the first `n` trees.
pub open spec fn forest_count(trees: Seq<Tree>, n: nat) -> nat
    decreases trees, n,
{
    if n == 0 || n > trees.len() {
        0
    } else {
        forest_count(trees, (n - 1) as nat) + node_count(trees[n - 1])
    }
}

/// The number of nodes of all pending batches.
pub open spec fn queue_count(queue: Seq<Seq<Tree>>) -> nat
    decreases queue.len(),
{
    if queue.len() == 0 {
        0
    } else {
        forest_count(queue[0], queue[0].len()) + queue_count(queue.drop_first())
    }
}

proof fn lemma_queue_push(queue: Seq<Seq<Tree>>, batch: Seq<Tree>)
    ensures
        queue_count(queue.push(batch)) == queue_count(queue) + forest_count(batch, batch.len()),
    decreases queue.len(),
{
    if queue.len() == 0 {
        assert(queue.push(batch).drop_first() == Seq::<Seq<Tree>>::empty());
        assert(queue.push(batch)[0] == batch);
        assert(queue_count(Seq::<Seq<Tree>>::empty()) == 0);
    } else {
        assert(queue.push(batch)[0] == queue[0]);
        assert(queue.push(batch).drop_first() == queue.drop_first().push(batch));
        lemma_queue_push(queue.drop_first(), batch);
    }
}

/// Every box of the tree is a 32-bit one and every node has at most 255
/// children.
pub open spec fn tree_fits(tree: Tree) -> bool
    decreases tree,
{
    &&& space_fits(tree.space())
    &&& match tree {
        Tree::Leaf { space, index } => index <= u32::MAX,
        Tree::Node { space, children } => {
            &&& 0 < children.len() <= u8::MAX
            &&& forall|k: int| 0 <= k < children.len() ==> tree_fits(#[trigger] children[k])
        },
    }
}

/// Laying out one batch keeps what the list holds.
proof fn lemma_batch_laid(
    before: Seq<FlatNode>,
    after: Seq<FlatNode>,
    parent: int,
    batch: Seq<Tree>,
    pending: Pending,
    left: Pending,
    i: int,
    tree: Tree,
)
    requires
        pending_at(pending, parent) == Some(batch),
        0 <= parent < before.len() <= after.len(),
        forall|j: int| 0 <= j < before.len() && j != parent ==> after[j] == before[j],
        after[parent].space() == before[parent].space(),
        after[parent].children_count == before[parent].children_count,
        before[parent].children_count > 0,
        after[parent].payload == before.len(),
        forall|j: int|
            0 <= j < before.len() && j != parent ==> #[trigger] pending_at(left, j) == pending_at(
                pending,
                j,
            ),
        pending_at(left, parent) is None,
        forall|k: int|
            0 <= k < batch.len() ==> holds_tree(
                after,
                before.len() + k,
                #[trigger] batch[k],
                left,
            ),
        holds_tree(before, i, tree, pending),
    ensures
        holds_tree(after, i, tree, left),
    decreases tree,
{
    if let Tree::Node { space, children } = tree {
        if i == parent {
            assert(children == batch);
        } else {
            assert(pending_at(left, i) == pending_at(pending, i));
        }
        if i != parent && pending_at(pending, i) is None {
            assert forall|k: int| 0 <= k < children.len() implies holds_tree(
                after,
                after[i].payload + k,
                #[trigger] children[k],
                left,
            ) by {
                lemma_batch_laid(
                    before,
                    after,
                    parent,
                    batch,
                    pending,
                    left,
                    before[i].payload + k,
                    children[k],
                );
            }
        }
    }
}

/// A batch of siblings with the place of their parent.
pub type Batch<'a> = (&'a Vec<RTreeNode>, usize);

/// The trees of the queued batches.
pub open spec fn queue_trees(queue: Seq<Batch<'_>>) -> Seq<Seq<Tree>> {
    Seq::new(queue.len(), |j: int| trees_of(queue[j].0@))
}

/// The queue and the pending children tell the same.
pub open spec fn queue_matches(queue: Seq<Batch<'_>>, pending: Pending, len: nat) -> bool {
    &&& forall|j: int|
        0 <= j < queue.len() ==> {
            &&& (#[trigger] queue[j]).1 < len
            &&& pending.dom().contains(queue[j].1 as int)
            &&& pending[queue[j].1 as int] == trees_of(queue[j].0@)
            &&& forall|k: int| 0 <= k < queue[j].0@.len() ==> tree_fits(
                tree_of(#[trigger] queue[j].0@[k]),
            )
        }
    &&& forall|i: int| #[trigger]
        pending.dom().contains(i) ==> exists|j: int|
            0 <= j < queue.len() && (#[trigger] queue[j]).1 == i
    &&& forall|a: int, b: int|
        0 <= a < b < queue.len() ==> (#[trigger] queue[a]).1 != (#[trigger] queue[b]).1
}

/// Place `i` holds the root of the tree, with all its children pending.
pub open spec fn laid(nodes: Seq<FlatNode>, i: int, tree: Tree, pending: Pending) -> bool {
    &&& 0 <= i < nodes.len()
    &&& nodes[i].space() == tree.space()
    &&& match tree {
        Tree::Leaf { space, index } => nodes[i].children_count == 0 && nodes[i].payload == index,
        Tree::Node { space, children } => {
            &&& nodes[i].children_count == children.len()
            &&& children.len() > 0
            &&& pending.dom().contains(i)
            &&& pending[i] == children
        },
    }
}

proof fn lemma_queue_grows(
    queue: Seq<Batch<'_>>,
    pending: Pending,
    len: usize,
    children: &Vec<RTreeNode>,
)
    requires
        queue_matches(queue, pending, len as nat),
        forall|k: int| 0 <= k < children@.len() ==> tree_fits(tree_of(#[trigger] children@[k])),
    ensures
        queue_matches(
            queue.push((children, len)),
            pending.insert(len as int, trees_of(children@)),
            len as nat + 1,
        ),
        !pending.dom().contains(len as int),
{
    let longer = queue.push((children, len));
    let more = pending.insert(len as int, trees_of(children@));
    if pending.dom().contains(len as int) {
        let j = choose|j: int| 0 <= j < queue.len() && (#[trigger] queue[j]).1 == len;
        assert(queue[j].1 < len);
    }
    assert forall|i: int| #[trigger] more.dom().contains(i) implies exists|j: int|
        0 <= j < longer.len() && (#[trigger] longer[j]).1 == i by {
        if i == len {
            assert(longer[queue.len() as int].1 == i);
        } else {
            assert(pending.dom().contains(i));
            let j = choose|j: int| 0 <= j < queue.len() && (#[trigger] queue[j]).1 == i;
            assert(longer[j].1 == i);
        }
    }
    assert forall|j: int| 0 <= j < longer.len() implies {
        &&& (#[trigger] longer[j]).1 < len + 1
        &&& more.dom().contains(longer[j].1 as int)
        &&& more[longer[j].1 as int] == trees_of(longer[j].0@)
        &&& forall|k: int| 0 <= k < longer[j].0@.len() ==> tree_fits(
            tree_of(#[trigger] longer[j].0@[k]),
        )
    } by {
        if j < queue.len() {
            assert(longer[j] == queue[j]);
            assert(queue[j].1 < len);
        }
    }
    assert forall|a: int, b: int| 0 <= a < b < longer.len() implies (#[trigger] longer[a]).1 != (
    #[trigger] longer[b]).1 by {
        assert(longer[a] == queue[a]);
        assert(queue[a].1 < len);
        if b < queue.len() {
            assert(longer[b] == queue[b]);
        }
    }
}

proof fn lemma_queue_longer(queue: Seq<Batch<'_>>, pending: Pending, len: nat, longer: nat)
    requires
        queue_matches(queue, pending, len),
        len <= longer,
    ensures
        queue_matches(queue, pending, longer),
{
    assert forall|j: int| 0 <= j < queue.len() implies (#[trigger] queue[j]).1 < longer by {
        assert(queue[j].1 < len);
    }
}

/// Without its first batch the queue matches what is left pending.
proof fn lemma_queue_popped(queue: Seq<Batch<'_>>, pending: Pending, len: nat)
    requires
        queue_matches(queue, pending, len),
        queue.len() > 0,
    ensures
        queue_matches(queue.drop_first(), pending.remove(queue[0].1 as int), len),
{
    let rest = queue.drop_first();
    let left = pending.remove(queue[0].1 as int);
    assert forall|j: int| 0 <= j < rest.len() implies {
        &&& (#[trigger] rest[j]).1 < len
        &&& left.dom().contains(rest[j].1 as int)
        &&& left[rest[j].1 as int] == trees_of(rest[j].0@)
        &&& forall|k: int| 0 <= k < rest[j].0@.len() ==> tree_fits(
            tree_of(#[trigger] rest[j].0@[k]),
        )
    } by {
        assert(rest[j] == queue[j + 1]);
        assert(queue[0].1 != queue[j + 1].1);
    }
    assert forall|i: int| #[trigger] left.dom().contains(i) implies exists|j: int|
        0 <= j < rest.len() && (#[trigger] rest[j]).1 == i by {
        assert(pending.dom().contains(i));
        let j = choose|j: int| 0 <= j < queue.len() && (#[trigger] queue[j]).1 == i;
        assert(rest[j - 1].1 == i);
    }
    assert forall|a: int, b: int| 0 <= a < b < rest.len() implies (#[trigger] rest[a]).1 != (
    #[trigger] rest[b]).1 by {
        assert(rest[a] == queue[a + 1]);
        assert(rest[b] == queue[b + 1]);
    }
}

/// The parents of the queued batches are no leaves.
pub open spec fn parents_open(nodes: Seq<FlatNode>, queue: Seq<Batch<'_>>) -> bool {
    forall|j: int|
        0 <= j < queue.len() ==> nodes[(#[trigger] queue[j]).1 as int].children_count > 0
}

/// The number of children of the first `n` nodes.
pub open spec fn children_before(nodes: Seq<FlatNode>, n: nat) -> nat
    decreases n,
{
    if n == 0 || n > nodes.len() {
        0
    } else {
        children_before(nodes, (n - 1) as nat) + nodes[n - 1].children_count as nat
    }
}

/// The list is in breadth-first order: the children of each node stand right
/// behind the root and the children of all earlier nodes.
pub open spec fn breadth_first(nodes: Seq<FlatNode>) -> bool {
    forall|i: int|
        0 <= i < nodes.len() && (#[trigger] nodes[i]).children_count > 0 ==> nodes[i].payload == 1
            + children_before(nodes, i as nat)
}

/// The first `done` nodes point at their children, the queue holds the
/// children of the others in the order of their parents.
pub open spec fn laid_in_order(nodes: Seq<FlatNode>, queue: Seq<Batch<'_>>, done: int) -> bool {
    &&& 0 <= done <= nodes.len()
    &&& forall|i: int|
        0 <= i < done && (#[trigger] nodes[i]).children_count > 0 ==> nodes[i].payload == 1
            + children_before(nodes, i as nat)
    &&& forall|i: int|
        done <= i < nodes.len() && (#[trigger] nodes[i]).children_count > 0 ==> exists|j: int|
            0 <= j < queue.len() && (#[trigger] queue[j]).1 == i
    &&& forall|j: int|
        0 <= j < queue.len() ==> {
            &&& done <= (#[trigger] queue[j]).1 < nodes.len()
            &&& queue[j].0@.len() == nodes[queue[j].1 as int].children_count
        }
    &&& forall|a: int, b: int|
        0 <= a < b < queue.len() ==> (#[trigger] queue[a]).1 < (#[trigger] queue[b]).1
}

/// The children of a prefix are counted by the prefix alone.
proof fn lemma_children_of_a_prefix(a: Seq<FlatNode>, b: Seq<FlatNode>, n: nat)
    requires
        n <= a.len(),
        n <= b.len(),
        forall|i: int| 0 <= i < n ==> (#[trigger] a[i]).children_count == b[i].children_count,
    ensures
        children_before(a, n) == children_before(b, n),
    decreases n,
{
    if n > 0 {
        assert(a[n - 1].children_count == b[n - 1].children_count);
        lemma_children_of_a_prefix(a, b, (n - 1) as nat);
    }
}

/// Leaves add no children.
proof fn lemma_leaves_add_nothing(nodes: Seq<FlatNode>, from: nat, to: nat)
    requires
        from <= to <= nodes.len(),
        forall|i: int| from <= i < to ==> (#[trigger] nodes[i]).children_count == 0,
    ensures
        children_before(nodes, from) == children_before(nodes, to),
    decreases to - from,
{
    if from < to {
        assert(nodes[to - 1].children_count == 0);
        lemma_leaves_add_nothing(nodes, from, (to - 1) as nat);
    }
}

/// Pointing the first queued parent at the end of the list keeps the order.
proof fn lemma_order_popped(
    before: Seq<FlatNode>,
    queue: Seq<Batch<'_>>,
    done: int,
    fixed: FlatNode,
)
    requires
        laid_in_order(before, queue, done),
        before.len() == 1 + children_before(before, done as nat),
        queue.len() > 0,
        fixed.children_count == before[queue[0].1 as int].children_count,
        fixed.payload == before.len(),
    ensures
        before.len() == 1 + children_before(before, queue[0].1 as nat),
        laid_in_order(
            before.update(queue[0].1 as int, fixed),
            queue.drop_first(),
            queue[0].1 + 1,
        ),
{
    let parent = queue[0].1 as int;
    let after = before.update(parent, fixed);
    let rest = queue.drop_first();
    assert forall|i: int| done <= i < parent implies (#[trigger] before[i]).children_count == 0 by {
        if before[i].children_count > 0 {
            let j = choose|j: int| 0 <= j < queue.len() && (#[trigger] queue[j]).1 == i;
            assert(queue[0].1 <= queue[j].1);
        }
    }
    lemma_leaves_add_nothing(before, done as nat, parent as nat);
    assert forall|i: int| 0 <= i < parent + 1 && (#[trigger] after[i]).children_count
        > 0 implies after[i].payload == 1 + children_before(after, i as nat) by {
        lemma_children_of_a_prefix(before, after, i as nat);
        if i < parent {
            assert(after[i] == before[i]);
        }
    }
    assert forall|i: int| parent + 1 <= i < after.len() && (#[trigger] after[i]).children_count
        > 0 implies exists|j: int| 0 <= j < rest.len() && (#[trigger] rest[j]).1 == i by {
        assert(after[i] == before[i]);
        let j = choose|j: int| 0 <= j < queue.len() && (#[trigger] queue[j]).1 == i;
        assert(rest[j - 1].1 == i);
    }
    assert forall|j: int| 0 <= j < rest.len() implies {
        &&& parent + 1 <= (#[trigger] rest[j]).1 < after.len()
        &&& rest[j].0@.len() == after[rest[j].1 as int].children_count
    } by {
        assert(rest[j] == queue[j + 1]);
        assert(queue[0].1 < queue[j + 1].1);
    }
    assert forall|a: int, b: int| 0 <= a < b < rest.len() implies (#[trigger] rest[a]).1 < (
    #[trigger] rest[b]).1 by {
        assert(rest[a] == queue[a + 1]);
        assert(rest[b] == queue[b + 1]);
    }
}

/// Laying one more node keeps the order, if its children are queued last.
proof fn lemma_order_grows(
    nodes: Seq<FlatNode>,
    queue: Seq<Batch<'_>>,
    done: int,
    node: FlatNode,
    children: Option<Batch<'_>>,
)
    requires
        laid_in_order(nodes, queue, done),
        match children {
            Some(batch) => batch.1 == nodes.len() && batch.0@.len() == node.children_count,
            None => node.children_count == 0,
        },
    ensures
        laid_in_order(
            nodes.push(node),
            match children {
                Some(batch) => queue.push(batch),
                None => queue,
            },
            done,
        ),
{
    let longer = nodes.push(node);
    let line = match children {
        Some(batch) => queue.push(batch),
        None => queue,
    };
    assert forall|i: int| 0 <= i < done && (#[trigger] longer[i]).children_count
        > 0 implies longer[i].payload == 1 + children_before(longer, i as nat) by {
        assert(longer[i] == nodes[i]);
        lemma_children_of_a_prefix(nodes, longer, i as nat);
    }
    assert forall|i: int| done <= i < longer.len() && (#[trigger] longer[i]).children_count
        > 0 implies exists|j: int| 0 <= j < line.len() && (#[trigger] line[j]).1 == i by {
        if i < nodes.len() {
            assert(longer[i] == nodes[i]);
            let j = choose|j: int| 0 <= j < queue.len() && (#[trigger] queue[j]).1 == i;
            assert(line[j].1 == i);
        } else {
            assert(line[queue.len() as int].1 == i);
        }
    }
    assert forall|j: int| 0 <= j < line.len() implies {
        &&& done <= (#[trigger] line[j]).1 < longer.len()
        &&& line[j].0@.len() == longer[line[j].1 as int].children_count
    } by {
        if j < queue.len() {
            assert(line[j] == queue[j]);
        }
    }
    assert forall|a: int, b: int| 0 <= a < b < line.len() implies (#[trigger] line[a]).1 < (
    #[trigger] line[b]).1 by {
        assert(line[a] == queue[a]);
        if b < queue.len() {
            assert(line[b] == queue[b]);
        }
    }
}

/// One node of the layout. Its children, if any, are laid out later.
fn lay_node(node: &RTreeNode) -> (r: FlatNode)
    requires
        tree_fits(tree_of(*node)),
    ensures
        r.space() == tree_of(*node).space(),
        match *node {
            RTreeNode::Leaf { parameter_space, value_index } => r.payload == value_index
                && r.children_count == 0,
            RTreeNode::SubTree { parameter_space, children } => r.children_count
                == children@.len() && children@.len() > 0,
        },
{
    match node {
        RTreeNode::Leaf { parameter_space, value_index } => flat_node(
            parameter_space,
            *value_index as u32,
            0,
        ),
        RTreeNode::SubTree { parameter_space, children } => {
            assert(tree_of(*node)->children.len() == children@.len());
            flat_node(parameter_space, 0, children.len() as u8)
        },
    }
}

/// Flatten an R-tree into a contiguous list using breadth-first ordering.
///
/// All children of the same parent occupy contiguous places, which is the key
/// property for cache-efficient search.
pub fn flatten_tree(root: &RTreeNode) -> (r: Vec<FlatNode>)
    requires
        tree_fits(tree_of(*root)),
        node_count(tree_of(*root)) <= u32::MAX,
    ensures
        represents(r@, 0, tree_of(*root)),
        r@.len() == node_count(tree_of(*root)),
        breadth_first(r@),
{
    let ghost tree = tree_of(*root);
    let mut nodes: Vec<FlatNode> = Vec::new();
    let mut queue: VecDeque<Batch<'_>> = VecDeque::new();
    nodes.push(lay_node(root));
    let ghost mut pending: Pending = Map::empty();
    if let RTreeNode::SubTree { parameter_space: _, children } = root {
        queue.push_back((children, 0));
        proof {
            pending = pending.insert(0, trees_of(children@));
            assert(trees_of(children@) == tree->children);
            assert(queue@ == seq![(children, 0usize)]);
            lemma_queue_push(Seq::empty(), trees_of(children@));
            assert(queue_trees(queue@) == Seq::<Seq<Tree>>::empty().push(trees_of(children@)));
            assert forall|k: int| 0 <= k < children@.len() implies tree_fits(
                tree_of(#[trigger] children@[k]),
            ) by {
                assert(tree_fits(tree->children[k]));
            }
            assert(queue@[0].1 == 0);
        }
    } else {
        assert(queue_trees(queue@) == Seq::<Seq<Tree>>::empty());
    }
    let ghost mut done: int = 0;
    assert(laid_in_order(nodes@, queue@, done));
    while queue.len() > 0
        invariant
            laid_in_order(nodes@, queue@, done),
            nodes@.len() == 1 + children_before(nodes@, done as nat),
            holds_tree(nodes@, 0, tree, pending),
            queue_matches(queue@, pending, nodes@.len()),
            parents_open(nodes@, queue@),
            nodes@.len() + queue_count(queue_trees(queue@)) == node_count(tree),
            node_count(tree) <= u32::MAX,
        decreases queue_count(queue_trees(queue@)) + queue@.len(),
    {
        let ghost before = nodes@;
        let ghost queued = queue@;
        let ghost was = pending;
        let (batch, parent) = queue.pop_front().unwrap();
        let ghost trees = trees_of(batch@);
        proof {
            assert(queued[0] == (batch, parent));
            assert(queue@ == queued.drop_first());
            assert(queue_trees(queued)[0] == trees);
            assert(queue_trees(queued).drop_first() == queue_trees(queue@));
        }
        let batch_start: usize = nodes.len();
        // Point the parent at its batch.
        let mut fixed = nodes[parent];
        fixed.payload = batch_start as u32;
        nodes.set(parent, fixed);
        proof {
            pending = pending.remove(parent as int);
            assert(nodes@ == before.update(parent as int, fixed));
            assert(fixed.space() == before[parent as int].space());
        }
        proof {
            lemma_queue_popped(queued, was, before.len());
            lemma_order_popped(before, queued, done, fixed);
            done = parent + 1;
            assert(before[queued[0].1 as int].children_count > 0);
            assert forall|j: int| 0 <= j < queue@.len() implies nodes@[(#[trigger] queue@[j]).1 as int].children_count
                > 0 by {
                assert(queue@[j] == queued[j + 1]);
                assert(before[queued[j + 1].1 as int].children_count > 0);
            }
        }
        let mut k: usize = 0;
        while k < batch.len()
            invariant
                k <= batch@.len(),
                trees == trees_of(batch@),
                forall|m: int| 0 <= m < batch@.len() ==> tree_fits(tree_of(#[trigger] batch@[m])),
                before.len() == batch_start,
                parent < before.len(),
                done == parent + 1,
                laid_in_order(nodes@, queue@, done),
                nodes@.len() == batch_start + k,
                node_count(tree) <= u32::MAX,
                forall|j: int| 0 <= j < before.len() && j != parent ==> nodes@[j] == before[j],
                nodes@[parent as int] == fixed,
                nodes@.len() + queue_count(queue_trees(queue@)) + forest_count(trees, trees.len())
                    == node_count(tree) + forest_count(trees, k as nat),
                queue_count(queue_trees(queue@)) + queue@.len() + forest_count(trees, trees.len())
                    <= queue_count(queue_trees(queued)) + queued.len() - 1 + forest_count(
                    trees,
                    k as nat,
                ),
                !pending.dom().contains(parent as int),
                queue_matches(queue@, pending, nodes@.len()),
                parents_open(nodes@, queue@),
                forall|j: int|
                    0 <= j < before.len() && j != parent ==> #[trigger] pending_at(pending, j)
                        == pending_at(was, j),
                forall|m: int|
                    0 <= m < k ==> laid(nodes@, before.len() + m, #[trigger] trees[m], pending),
            decreases batch@.len() - k,
        {
            let node = &batch[k];
            let flat_idx: usize = nodes.len();
            let ghost earlier = nodes@;
            let ghost waiting = pending;
            let ghost line = queue@;
            proof {
                assert(tree_fits(tree_of(batch@[k as int])));
                assert(trees[k as int] == tree_of(*node));
                assert(forest_count(trees, k as nat + 1) == forest_count(trees, k as nat)
                    + node_count(trees[k as int]));
            }
            nodes.push(lay_node(node));
            assert(nodes@ == earlier.push(nodes@.last()));
            if let RTreeNode::SubTree { parameter_space: _, children } = node {
                queue.push_back((children, flat_idx));
                proof {
                    pending = pending.insert(flat_idx as int, trees_of(children@));
                    assert(trees_of(children@) == trees[k as int]->children);
                    assert(queue@ == line.push((children, flat_idx)));
                    lemma_queue_push(queue_trees(line), trees_of(children@));
                    assert(queue_trees(queue@) == queue_trees(line).push(trees_of(children@)));
                    assert forall|m: int| 0 <= m < children@.len() implies tree_fits(
                        tree_of(#[trigger] children@[m]),
                    ) by {
                        assert(tree_fits(trees[k as int]->children[m]));
                    }
                    lemma_queue_grows(line, waiting, flat_idx, children);
                    lemma_order_grows(
                        earlier,
                        line,
                        done,
                        nodes@.last(),
                        Some((children, flat_idx)),
                    );
                }
            } else {
                proof {
                    lemma_queue_longer(line, waiting, earlier.len(), earlier.len() + 1);
                    lemma_order_grows(earlier, line, done, nodes@.last(), None);
                }
            }
            proof {
                assert forall|j: int| 0 <= j < before.len() && j != parent implies
                    #[trigger] pending_at(pending, j) == pending_at(was, j) by {
                    assert(pending_at(waiting, j) == pending_at(was, j));
                }
                assert(parents_open(nodes@, queue@)) by {
                    assert forall|j: int| 0 <= j < queue@.len() implies nodes@[(#[trigger] queue@[j]).1 as int].children_count
                        > 0 by {
                        if j < line.len() {
                            assert(queue@[j] == line[j]);
                            assert(line[j].1 < earlier.len());
                        }
                    }
                }
                assert forall|m: int| 0 <= m < k + 1 implies laid(
                    nodes@,
                    before.len() + m,
                    #[trigger] trees[m],
                    pending,
                ) by {
                    if m < k {
                        assert(laid(earlier, before.len() + m, trees[m], waiting));
                    }
                }
            }
            k += 1;
        }
        proof {
            assert forall|m: int| 0 <= m < trees.len() implies holds_tree(
                nodes@,
                before.len() + m,
                #[trigger] trees[m],
                pending,
            ) by {
                assert(laid(nodes@, before.len() + m, trees[m], pending));
            }
            lemma_batch_laid(before, nodes@, parent as int, trees, was, pending, 0, tree);
            lemma_children_of_a_prefix(before, nodes@, parent as nat);
            assert(nodes@[parent as int].children_count == batch@.len());
            assert(children_before(nodes@, done as nat) == children_before(nodes@, parent as nat)
                + batch@.len());
        }
    }
    proof {
        assert(queue_trees(queue@) == Seq::<Seq<Tree>>::empty());
        assert(pending =~= Map::empty());
    }
    nodes
}

// ---------------------------------------------------------------------------
// Search
// ---------------------------------------------------------------------------
/// The best candidate of a search so far: its distance, and its index once
/// there is one.
pub struct Best {
    pub distance: i64,
    pub index: Option<nat>,
}

/// The search of a subtree: children in turn, skipping those whose box is not
/// strictly nearer than the best candidate.
pub open spec fn search(tree: Tree, target: Seq<i64>, best: Best) -> Best
    decreases tree, 0nat,
{
    match tree {
        Tree::Leaf { space, index } => best,
        Tree::Node { space, children } => search_first(children, target, best, children.len()),
    }
}

/// The search of the first `n` children.
pub open spec fn search_first(children: Seq<Tree>, target: Seq<i64>, best: Best, n: nat) -> Best
    decreases children, n,
{
    if n == 0 || n > children.len() {
        best
    } else {
        let before = search_first(children, target, best, (n - 1) as nat);
        let child = children[n - 1];
        let near = box_distance(child.space(), target);
        if before.distance > near {
            match child {
                Tree::Leaf { space, index } => Best { distance: near, index: Some(index) },
                Tree::Node { space, children } => search(child, target, before),
            }
        } else {
            before
        }
    }
}

pub open spec fn best_of(distance: i64, index: Option<u32>) -> Best {
    Best {
        distance,
        index: match index {
            Some(i) => Some(i as nat),
            None => None,
        },
    }
}

/// Search the flat R-tree for the nearest leaf to the target.
fn search_nearest(
    nodes: &Vec<FlatNode>,
    node: usize,
    target: PackedTarget,
    best_dist: &mut i64,
    best_idx: &mut Option<u32>,
    Ghost(tree): Ghost<Tree>,
    Ghost(coordinates): Ghost<Seq<i64>>,
)
    requires
        represents(nodes@, node as int, tree),
        tree is Node,
        coordinates.len() == 7,
        target@ == packed(coordinates),
    ensures
        best_of(*final(best_dist), *final(best_idx)) == search(
            tree,
            coordinates,
            best_of(*old(best_dist), *old(best_idx)),
        ),
    decreases tree,
{
    let ghost children = tree->children;
    let ghost start_best = best_of(*best_dist, *best_idx);
    let start: usize = nodes[node].children_start() as usize;
    let count: usize = nodes[node].children_count as usize;
    let mut k: usize = 0;
    while k < count
        invariant
            k <= count,
            count == children.len(),
            tree is Node,
            children == tree->children,
            node < nodes@.len(),
            start == nodes@[node as int].payload,
            coordinates.len() == 7,
            target@ == packed(coordinates),
            represents(nodes@, node as int, tree),
            best_of(*best_dist, *best_idx) == search_first(
                children,
                coordinates,
                start_best,
                k as nat,
            ),
        decreases count - k,
    {
        let ghost child_tree = children[k as int];
        proof {
            assert(pending_at(Map::empty(), node as int) is None);
            assert(holds_tree(nodes@, start + k, children[k as int], Map::empty()));
            assert(nodes@.len() == nodes.len());
            assert(decreases_to!(tree => tree->children));
            assert(decreases_to!(tree => tree->children[k as int]));
        }
        let child: usize = start + k;
        let child_dist: i64 = nodes[child].distance(target);
        proof {
            lemma_packed_distance(child_tree.space(), coordinates);
        }
        // Strict comparison: equal distances are skipped.
        if *best_dist > child_dist {
            if nodes[child].is_leaf() {
                // For a leaf this is the exact distance.
                *best_dist = child_dist;
                *best_idx = Some(nodes[child].value_index());
            } else {
                search_nearest(
                    nodes,
                    child,
                    target,
                    best_dist,
                    best_idx,
                    Ghost(child_tree),
                    Ghost(coordinates),
                );
            }
        }
        k += 1;
    }
}

proof fn lemma_packed_distance(space: Space, target: Seq<i64>)
    requires
        target.len() == 7,
    ensures
        box_distance(space, packed(target)) == box_distance(space, target),
{
    lemma_packed_squares(space, target, 7);
}

proof fn lemma_packed_squares(space: Space, target: Seq<i64>, n: nat)
    requires
        target.len() == 7,
        n <= 7,
    ensures
        gap_squares(space, packed(target), n) == gap_squares(space, target, n),
    decreases n,
{
    if n > 0 {
        lemma_packed_squares(space, target, (n - 1) as nat);
        assert(packed(target)[n - 1] == target[n - 1]);
    }
}

// ---------------------------------------------------------------------------
// What a built tree holds
// ---------------------------------------------------------------------------
/// The tree has a leaf for the entry.
pub open spec fn has_leaf(tree: Tree, entry: Entry) -> bool
    decreases tree,
{
    match tree {
        Tree::Leaf { space, index } => space == entry.space && index == entry.index,
        Tree::Node { space, children } => exists|k: int|
            0 <= k < children.len() && has_leaf(#[trigger] children[k], entry),
    }
}

pub proof fn lemma_arranged_contains<A>(items: Seq<A>, keys: Seq<Seq<i64>>, item: A)
    requires
        keys.len() == items.len(),
    ensures
        arranged(items, keys).contains(item) <==> items.contains(item),
        arranged(items, keys).len() == items.len(),
{
    order::stable_ordering_exists(keys);
    let after = arranged(items, keys);
    let way = order::ordering(keys);
    if after.contains(item) {
        let k = choose|k: int| 0 <= k < after.len() && after[k] == item;
        assert(0 <= way[k] < keys.len());
        assert(items[way[k]] == item);
    }
    if items.contains(item) {
        let i = choose|i: int| 0 <= i < items.len() && items[i] == item;
        assert(way.contains(i));
        let k = choose|k: int| 0 <= k < way.len() && way[k] == i;
        assert(after[k] == item);
    }
}

proof fn lemma_split_contains(entries: Seq<Entry>, n: nat, entry: Entry)
    requires
        entries.len() >= 7,
        entries_fit(entries),
        n <= 7,
    ensures
        split_after(entries, n).current.contains(entry) <==> entries.contains(entry),
        split_after(entries, n).best.contains(entry) <==> entries.contains(entry),
    decreases n,
{
    if n > 0 {
        lemma_split_contains(entries, (n - 1) as nat, entry);
        lemma_split(entries, (n - 1) as nat);
        let before = split_after(entries, (n - 1) as nat);
        lemma_arranged_contains(
            before.current,
            dimension_keys(spaces_of(before.current), n - 1),
            entry,
        );
    }
}

/// The bucket that an entry falls into.
proof fn lemma_bucket_of(entries: Seq<Entry>, i: int) -> (k: int)
    requires
        entries.len() >= 7,
        0 <= i < entries.len(),
    ensures
        0 <= k < buckets(entries, bucket_size(entries.len())).len(),
        buckets(entries, bucket_size(entries.len()))[k].contains(entries[i]),
{
    let size = bucket_size(entries.len());
    let len = entries.len();
    lemma_bucket_size(len);
    lemma_bucket_count(len, size);
    let k = i / size as int;
    let n = bucket_count(len, size) as int;
    assert(k * size <= i < k * size + size) by (nonlinear_arith)
        requires
            k == i / size as int,
            size >= 1,
            i >= 0,
    ;
    assert(k >= 0) by (nonlinear_arith)
        requires
            k == i / size as int,
            size >= 1,
            i >= 0,
    ;
    assert(k < n) by (nonlinear_arith)
        requires
            k * size <= i,
            i < len,
            n * size >= len,
            size >= 1,
    ;
    lemma_bucket_start(k, size, len);
    let one = bucket(entries, size, k);
    assert(one[i - k * size] == entries[i]);
    k
}

proof fn lemma_chosen_contains(entries: Seq<Entry>, entry: Entry)
    requires
        entries.len() >= 7,
        entries_fit(entries),
    ensures
        entries.contains(entry) <==> exists|k: int|
            0 <= k < chosen_buckets(entries).len() && (#[trigger] chosen_buckets(
                entries,
            )[k]).contains(entry),
{
    let split = split_after(entries, 7);
    let size = bucket_size(entries.len());
    let list = buckets(split.best, size);
    let keys = distance_keys(bucket_hulls(list), split.dimension as int);
    let chosen = chosen_buckets(entries);
    lemma_split(entries, 7);
    lemma_split_contains(entries, 7, entry);
    lemma_buckets(split.best);
    order::stable_ordering_exists(keys);
    let way = order::ordering(keys);
    if entries.contains(entry) {
        let i = choose|i: int| 0 <= i < split.best.len() && split.best[i] == entry;
        let from = lemma_bucket_of(split.best, i);
        assert(way.contains(from));
        let k = choose|k: int| 0 <= k < way.len() && way[k] == from;
        assert(chosen[k] == list[from]);
        assert(chosen[k].contains(entry));
    }
    if exists|k: int| 0 <= k < chosen.len() && (#[trigger] chosen[k]).contains(entry) {
        let k = choose|k: int| 0 <= k < chosen.len() && (#[trigger] chosen[k]).contains(entry);
        let from = way[k];
        assert(0 <= from < keys.len());
        assert(chosen[k] == list[from]);
        lemma_bucket_size(entries.len());
        lemma_bucket_start(from, size, entries.len());
        let j = choose|j: int| 0 <= j < list[from].len() && list[from][j] == entry;
        let start = bucket_start(from, size, entries.len());
        assert(split.best[start + j] == entry);
    }
}

/// The leaves of the built tree are the entries.
pub proof fn the_tree_holds_exactly_the_entries(entries: Seq<Entry>, entry: Entry)
    requires
        entries.len() > 0,
        entries_fit(entries),
    ensures
        has_leaf(build(entries), entry) <==> entries.contains(entry),
    decreases entries.len(),
{
    let tree = build(entries);
    if entries.len() == 1 {
        if has_leaf(tree, entry) {
            assert(entries[0] == entry);
        }
    } else if entries.len() <= 6 {
        let sorted = by_magnitude(entries);
        lemma_arranged_contains(entries, magnitude_keys(spaces_of(entries)), entry);
        if has_leaf(tree, entry) {
            let k = choose|k: int|
                0 <= k < tree->children.len() && has_leaf(#[trigger] tree->children[k], entry);
            assert(sorted[k] == entry);
        }
        if entries.contains(entry) {
            let k = choose|k: int| 0 <= k < sorted.len() && sorted[k] == entry;
            assert(has_leaf(tree->children[k], entry));
        }
    } else {
        let chosen = chosen_buckets(entries);
        lemma_chosen_buckets(entries);
        lemma_chosen_contains(entries, entry);
        if has_leaf(tree, entry) {
            let k = choose|k: int|
                0 <= k < tree->children.len() && has_leaf(#[trigger] tree->children[k], entry);
            assert(tree->children[k] == build(chosen[k]));
            the_tree_holds_exactly_the_entries(chosen[k], entry);
            assert(chosen[k].contains(entry));
        }
        if entries.contains(entry) {
            let k = choose|k: int| 0 <= k < chosen.len() && (#[trigger] chosen[k]).contains(entry);
            the_tree_holds_exactly_the_entries(chosen[k], entry);
            assert(tree->children[k] == build(chosen[k]));
            assert(has_leaf(tree->children[k], entry));
        }
    }
}

/// The boxes of a built tree fit, and so do its indices.
pub proof fn lemma_build_fits(entries: Seq<Entry>)
    requires
        entries.len() > 0,
        entries_fit(entries),
        forall|i: int| 0 <= i < entries.len() ==> (#[trigger] entries[i]).index <= u32::MAX,
    ensures
        tree_fits(build(entries)),
    decreases entries.len(),
{
    let tree = build(entries);
    if entries.len() == 1 {
        assert(space_fits(entries[0].space));
        assert(entries[0].index <= u32::MAX);
    } else if entries.len() <= 6 {
        let sorted = by_magnitude(entries);
        let keys = magnitude_keys(spaces_of(entries));
        lemma_arranged_fits(entries, keys);
        order::stable_ordering_exists(keys);
        assert forall|k: int| 0 <= k < tree->children.len() implies tree_fits(
            #[trigger] tree->children[k],
        ) by {
            let from = order::ordering(keys)[k];
            assert(0 <= from < keys.len());
            assert(sorted[k] == entries[from]);
            assert(space_fits(sorted[k].space));
            assert(entries[from].index <= u32::MAX);
        }
        assert forall|i: int| 0 <= i < spaces_of(sorted).len() implies space_fits(
            #[trigger] spaces_of(sorted)[i],
        ) by {
            assert(space_fits(sorted[i].space));
        }
        lemma_hull_fits(spaces_of(sorted));
    } else {
        let chosen = chosen_buckets(entries);
        lemma_chosen_buckets(entries);
        assert forall|k: int| 0 <= k < tree->children.len() implies tree_fits(
            #[trigger] tree->children[k],
        ) by {
            assert(tree->children[k] == build(chosen[k]));
            assert forall|i: int| 0 <= i < chosen[k].len() implies (#[trigger] chosen[k][i]).index
                <= u32::MAX by {
                lemma_chosen_contains(entries, chosen[k][i]);
                assert(chosen[k].contains(chosen[k][i]));
                assert(entries.contains(chosen[k][i]));
                let j = choose|j: int| 0 <= j < entries.len() && entries[j] == chosen[k][i];
                assert(entries[j].index <= u32::MAX);
            }
            lemma_build_fits(chosen[k]);
        }
        let spaces = tree_spaces(tree->children);
        assert forall|i: int| 0 <= i < spaces.len() implies space_fits(#[trigger] spaces[i]) by {
            assert(tree_fits(tree->children[i]));
        }
        lemma_hull_fits(spaces);
    }
}

// ---------------------------------------------------------------------------
// Parameter list
// ---------------------------------------------------------------------------
/// A list of biome parameter points with their associated values.
pub struct ParameterList<T> {
    /// The biome entries (parameter point, value pairs).
    values: Vec<(ParameterPoint, T)>,
    /// Cached parameter spaces for each value.
    param_spaces: Vec<[Parameter; 7]>,
    /// Flat R-tree nodes in breadth-first order. Root is at index 0.
    nodes: Vec<FlatNode>,
}

/// The entries of a list of values, in order.
pub open spec fn list_entries<T>(values: Seq<(ParameterPoint, T)>) -> Seq<Entry> {
    Seq::new(values.len(), |i: int| Entry { space: values[i].0.space(), index: i as nat })
}

/// Every bound of every point is a 32-bit number, and there are few enough
/// values for 32-bit places.
pub open spec fn values_fit<T>(values: Seq<(ParameterPoint, T)>) -> bool {
    0 < values.len() <= MAX_ENTRIES && forall|i: int|
        0 <= i < values.len() ==> space_fits((#[trigger] values[i]).0.space())
}

/// The best candidate before anything was searched.
pub open spec fn no_candidate() -> Best {
    Best { distance: i64::MAX, index: None }
}

/// The result of a lookup that starts from a candidate: the lone entry, or what
/// the search of the tree finds.
pub open spec fn looked_up(entries: Seq<Entry>, target: Seq<i64>, start: Best) -> Option<nat> {
    match build(entries) {
        Tree::Leaf { space, index } => Some(index),
        Tree::Node { space, children } => search(build(entries), target, start).index,
    }
}

/// The candidate that a remembered result makes: its own distance.
pub open spec fn cached_candidate(entries: Seq<Entry>, target: Seq<i64>, cache: Option<usize>) -> Best {
    match cache {
        Some(i) => Best {
            distance: box_distance(entries[i as int].space, target),
            index: Some(i as nat),
        },
        None => no_candidate(),
    }
}

/// A found index is one of the starting candidate or of a leaf.
pub proof fn lemma_search_index(tree: Tree, target: Seq<i64>, best: Best)
    ensures
        ({
            let found = search(tree, target, best);
            found.index is Some ==> found == best || exists|e: Entry| #[trigger]
                has_leaf(tree, e) && e.index == found.index->0 && box_distance(e.space, target)
                    == found.distance
        }),
    decreases tree, 0nat,
{
    if let Tree::Node { space, children } = tree {
        lemma_first_index(children, target, best, children.len());
        let found = search(tree, target, best);
        if found.index is Some && found != best {
            let (k, e) = choose|k: int, e: Entry|
                0 <= k < children.len() && #[trigger] has_leaf(children[k], e) && e.index
                    == found.index->0 && box_distance(e.space, target) == found.distance;
            assert(has_leaf(tree, e));
        }
    }
}

proof fn lemma_first_index(children: Seq<Tree>, target: Seq<i64>, best: Best, n: nat)
    requires
        n <= children.len(),
    ensures
        ({
            let found = search_first(children, target, best, n);
            found.index is Some ==> found == best || exists|k: int, e: Entry|
                0 <= k < children.len() && #[trigger] has_leaf(children[k], e) && e.index
                    == found.index->0 && box_distance(e.space, target) == found.distance
        }),
    decreases children, n,
{
    if n > 0 {
        lemma_first_index(children, target, best, (n - 1) as nat);
        let before = search_first(children, target, best, (n - 1) as nat);
        let found = search_first(children, target, best, n);
        let child = children[n - 1];
        match child {
            Tree::Leaf { space, index } => {
                let e = Entry { space, index };
                assert(has_leaf(children[n - 1], e));
            },
            Tree::Node { space, children: inner } => {
                lemma_search_index(child, target, before);
                if found.index is Some && found != before {
                    let e = choose|e: Entry| #[trigger]
                        has_leaf(child, e) && e.index == found.index->0 && box_distance(
                            e.space,
                            target,
                        ) == found.distance;
                    assert(has_leaf(children[n - 1], e));
                }
            },
        }
    }
}

/// A search that changes the candidate has found one.
pub proof fn lemma_search_found(tree: Tree, target: Seq<i64>, best: Best)
    ensures
        search(tree, target, best) != best ==> search(tree, target, best).index is Some,
    decreases tree, 0nat,
{
    if let Tree::Node { space, children } = tree {
        lemma_first_found(children, target, best, children.len());
    }
}

proof fn lemma_first_found(children: Seq<Tree>, target: Seq<i64>, best: Best, n: nat)
    requires
        n <= children.len(),
    ensures
        search_first(children, target, best, n) != best ==> search_first(
            children,
            target,
            best,
            n,
        ).index is Some,
    decreases children, n,
{
    if n > 0 {
        lemma_first_found(children, target, best, (n - 1) as nat);
        let before = search_first(children, target, best, (n - 1) as nat);
        lemma_search_found(children[n - 1], target, before);
    }
}

/// A found index is a place in the list.
pub proof fn lookups_stay_in_the_list(entries: Seq<Entry>, target: Seq<i64>, start: Best)
    requires
        entries.len() > 0,
        entries_fit(entries),
        forall|i: int| 0 <= i < entries.len() ==> (#[trigger] entries[i]).index == i,
        entries.len() > 1 && start.index is Some ==> start.index->0 < entries.len(),
    ensures
        looked_up(entries, target, start) is Some ==> looked_up(entries, target, start)->0
            < entries.len(),
{
    let tree = build(entries);
    match tree {
        Tree::Leaf { space, index } => {
            let e = Entry { space, index };
            assert(has_leaf(tree, e));
            the_tree_holds_exactly_the_entries(entries, e);
        },
        Tree::Node { space, children } => {
            lemma_search_index(tree, target, start);
            let found = search(tree, target, start);
            if found.index is Some && found != start {
                let e = choose|e: Entry| #[trigger]
                    has_leaf(tree, e) && e.index == found.index->0 && box_distance(e.space, target)
                        == found.distance;
                the_tree_holds_exactly_the_entries(entries, e);
            }
        },
    }
}

impl<T> ParameterList<T> {
    /// The values of the list.
    pub closed spec fn view(&self) -> Seq<(ParameterPoint, T)> {
        self.values@
    }

    /// The index over the values is the built one.
    pub closed spec fn well_formed(&self) -> bool {
        &&& values_fit(self.values@)
        &&& represents(self.nodes@, 0, build(list_entries(self.values@)))
        &&& self.param_spaces@.len() == self.values@.len()
        &&& forall|i: int|
            0 <= i < self.values@.len() ==> (#[trigger] self.param_spaces@[i])@
                == self.values@[i].0.space()
    }

    /// Create a new parameter list from values, building an R-tree index.
    pub fn new(values: Vec<(ParameterPoint, T)>) -> (r: Self)
        requires
            values_fit(values@),
        ensures
            r@ == values@,
            r.well_formed(),
    {
        let ghost views = list_entries(values@);
        let mut param_spaces: Vec<[Parameter; 7]> = Vec::with_capacity(values.len());
        let mut entries: Vec<BuildEntry> = Vec::with_capacity(values.len());
        let mut i: usize = 0;
        while i < values.len()
            invariant
                i <= values@.len(),
                views == list_entries(values@),
                param_spaces@.len() == i,
                entries@.len() == i,
                forall|j: int|
                    0 <= j < i ==> (#[trigger] param_spaces@[j])@ == values@[j].0.space(),
                forall|j: int| 0 <= j < i ==> (#[trigger] entries@[j])@ == views[j],
            decreases values@.len() - i,
        {
            let parameter_space = values[i].0.parameter_space();
            param_spaces.push(parameter_space);
            entries.push(BuildEntry { parameter_space, index: i });
            assert(entries@[i as int]@ == views[i as int]);
            i += 1;
        }
        proof {
            assert(entry_views(entries@) == views);
            assert forall|j: int| 0 <= j < views.len() implies space_fits(
                (#[trigger] views[j]).space,
            ) by {
                assert(space_fits(values@[j].0.space()));
            }
            lemma_build_fits(views);
            tree_shape::a_tree_has_fewer_than_twice_as_many_nodes(views);
        }
        let root = build_tree(entries);
        let nodes = flatten_tree(&root);
        ParameterList { values, param_spaces, nodes }
    }

    /// Get the underlying values.
    pub fn values(&self) -> (r: &[(ParameterPoint, T)])
        ensures
            r@ == self@,
    {
        self.values.as_slice()
    }

    proof fn lemma_entries(&self)
        requires
            self.well_formed(),
        ensures
            entries_fit(list_entries(self@)),
            forall|i: int|
                0 <= i < self@.len() ==> (#[trigger] list_entries(self@)[i]).index == i,
    {
        let views = list_entries(self@);
        assert forall|j: int| 0 <= j < views.len() implies space_fits((#[trigger] views[j]).space) by {
            assert(space_fits(self.values@[j].0.space()));
        }
    }

    /// Find the best matching value for a target point (no caching).
    ///
    /// Starts from no candidate. Use `find_value_cached` for the hot path to
    /// have the last result break ties.
    pub fn find_value(&self, target: &TargetPoint) -> (r: &T)
        requires
            self.well_formed(),
            looked_up(list_entries(self@), target.coordinates(), no_candidate()) is Some,
        ensures
            *r == self@[looked_up(
                list_entries(self@),
                target.coordinates(),
                no_candidate(),
            )->0 as int].1,
    {
        let ghost entries = list_entries(self@);
        let ghost coordinates = target.coordinates();
        proof {
            self.lemma_entries();
            lookups_stay_in_the_list(entries, coordinates, no_candidate());
        }
        let target_array = target.to_parameter_array();
        if self.nodes[0].is_leaf() {
            return &self.values[self.nodes[0].value_index() as usize].1;
        }
        let mut best_dist: i64 = i64::MAX;
        let mut best_idx: Option<u32> = None;
        search_nearest(
            &self.nodes,
            0,
            pack_target(&target_array),
            &mut best_dist,
            &mut best_idx,
            Ghost(build(entries)),
            Ghost(coordinates),
        );
        &self.values[best_idx.unwrap() as usize].1
    }

    /// Find the best matching value with last-result caching.
    ///
    /// The cache stores the index of the last result, which is the starting
    /// candidate of the next search. A lone value is found whatever the cache
    /// holds.
    pub fn find_value_cached(&self, target: &TargetPoint, cache: &mut Option<usize>) -> (r: &T)
        requires
            self.well_formed(),
            self@.len() > 1 && *old(cache) is Some ==> (*old(cache))->0 < self@.len(),
            looked_up(
                list_entries(self@),
                target.coordinates(),
                cached_candidate(list_entries(self@), target.coordinates(), *old(cache)),
            ) is Some,
        ensures
            ({
                let found = looked_up(
                    list_entries(self@),
                    target.coordinates(),
                    cached_candidate(list_entries(self@), target.coordinates(), *old(cache)),
                )->0;
                &&& found < self@.len()
                &&& *final(cache) == Some(found as usize)
                &&& *r == self@[found as int].1
            }),
    {
        let ghost entries = list_entries(self@);
        let ghost coordinates = target.coordinates();
        let ghost start = cached_candidate(entries, coordinates, *old(cache));
        proof {
            self.lemma_entries();
            lookups_stay_in_the_list(entries, coordinates, start);
        }
        let target_array = target.to_parameter_array();
        if self.nodes[0].is_leaf() {
            let idx: usize = self.nodes[0].value_index() as usize;
            *cache = Some(idx);
            return &self.values[idx].1;
        }
        let mut best_dist: i64 = i64::MAX;
        let mut best_idx: Option<u32> = None;
        if let Some(idx) = *cache {
            // The distance of the remembered result.
            let ghost space = entries[idx as int].space;
            let mut d: i64 = 0;
            let mut i: usize = 0;
            while i < PARAMETER_COUNT
                invariant
                    i <= 7,
                    self.well_formed(),
                    idx < self.values@.len(),
                    space == self.values@[idx as int].0.space(),
                    target_array@ == coordinates,
                    d == gap_squares(space, coordinates, i as nat),
                decreases 7 - i,
            {
                assert(self.param_spaces@[idx as int]@ == space);
                let p = self.param_spaces[idx][i];
                assert(p == space[i as int]);
                let di: i64 = gap_of(p.min, p.max, target_array[i]);
                d = d.wrapping_add(di.wrapping_mul(di));
                i += 1;
            }
            best_dist = d;
            best_idx = Some(idx as u32);
        }
        search_nearest(
            &self.nodes,
            0,
            pack_target(&target_array),
            &mut best_dist,
            &mut best_idx,
            Ghost(build(entries)),
            Ghost(coordinates),
        );
        let result_idx: usize = best_idx.unwrap() as usize;
        *cache = Some(result_idx);
        &self.values[result_idx].1
    }
}

} // verus!
