//! What holds of the tree that biomes are looked up in: how entries are
//! ordered and grouped, and which of several equally near ones is found.

use crate::climate::nearest;
use crate::climate::order;
use crate::climate::parameter_list;
use crate::climate::parameter_list::{Best, Entry, Space, Tree};
use vstd::prelude::*;

verus! {

/// The first number in which two keys differ is smaller in the first key.
pub open spec fn less_at(a: Seq<i64>, b: Seq<i64>, d: int) -> bool {
    0 <= d < 7 && a[d] < b[d] && forall|i: int| 0 <= i < d ==> #[trigger] a[i] == b[i]
}

proof fn lemma_before(a: Seq<i64>, b: Seq<i64>, d: nat)
    requires
        d <= 7,
        forall|i: int| 0 <= i < d ==> #[trigger] a[i] == b[i],
    ensures
        order::before_from(a, b, d) <==> exists|e: int| #[trigger] less_at(a, b, e),
    decreases 7 - d,
{
    if d < 7 {
        if a[d as int] == b[d as int] {
            lemma_before(a, b, d + 1);
        } else if a[d as int] < b[d as int] {
            assert(less_at(a, b, d as int));
        } else if exists|e: int| #[trigger] less_at(a, b, e) {
            let e = choose|e: int| #[trigger] less_at(a, b, e);
            if e > d {
                assert(a[d as int] == b[d as int]);
            }
        }
    } else if exists|e: int| #[trigger] less_at(a, b, e) {
        let e = choose|e: int| #[trigger] less_at(a, b, e);
        assert(a[e] == b[e]);
    }
}

/// A key comes before another exactly where the first number in which they
/// differ is smaller.
pub proof fn keys_are_ordered_by_their_first_difference(a: Seq<i64>, b: Seq<i64>)
    ensures
        order::key_before(a, b) <==> exists|d: int| #[trigger] less_at(a, b, d),
{
    lemma_before(a, b, 0);
}

/// Items are ordered by their keys, and those with the same key keep the order
/// that they had.
pub proof fn an_order_is_stable(keys: Seq<Seq<i64>>, a: int, b: int)
    requires
        0 <= a < b < keys.len(),
    ensures
        ({
            let items = order::ordering(keys);
            &&& items.len() == keys.len()
            &&& 0 <= items[a] < keys.len()
            &&& !order::key_before(keys[items[b]], keys[items[a]])
            &&& order::key_before(keys[items[a]], keys[items[b]]) || items[a] < items[b]
        }),
{
    order::stable_ordering_exists(keys);
    let items = order::ordering(keys);
    assert(order::item_before(keys, items[a], items[b]));
    if order::key_before(keys[items[b]], keys[items[a]]) {
        lemma_before(keys[items[a]], keys[items[b]], 0);
        lemma_before(keys[items[b]], keys[items[a]], 0);
        if order::key_before(keys[items[a]], keys[items[b]]) {
            let (p, q) = (keys[items[a]], keys[items[b]]);
            let d = choose|d: int| #[trigger] less_at(p, q, d);
            let e = choose|e: int| #[trigger] less_at(q, p, e);
            if d < e {
                assert(q[d] == p[d]);
            } else if e < d {
                assert(p[e] == q[e]);
            }
        }
    }
}

/// How far the middle of a range lies from zero.
pub open spec fn off_center(space: Space, d: int) -> int {
    parameter_list::absolute(parameter_list::center(space[d]))
}

/// How far the middle of a box lies from zero, over all seven parameters.
pub open spec fn magnitude(space: Space) -> int {
    off_center(space, 0) + off_center(space, 1) + off_center(space, 2) + off_center(space, 3)
        + off_center(space, 4) + off_center(space, 5) + off_center(space, 6)
}

proof fn lemma_magnitude(space: Space)
    requires
        parameter_list::space_fits(space),
    ensures
        parameter_list::center_sum(space, 7) == magnitude(space),
        parameter_list::magnitude_key(space)[0] == magnitude(space),
        forall|d: int| 0 <= d < 7 ==> 0 <= #[trigger] off_center(space, d) <= 0x8000_0000,
        forall|d: int|
            0 <= d < 7 ==> i32::MIN <= #[trigger] parameter_list::center(space[d]) <= i32::MAX,
{
    reveal_with_fuel(parameter_list::center_sum, 8);
    assert forall|d: int| 0 <= d < 7 implies i32::MIN <= #[trigger] parameter_list::center(
        space[d],
    ) <= i32::MAX by {
        assert(parameter_list::parameter_fits(space[d]));
    }
    assert forall|d: int| 0 <= d < 7 implies 0 <= #[trigger] off_center(space, d)
        <= 0x8000_0000 by {
        assert(parameter_list::parameter_fits(space[d]));
    }
    assert(off_center(space, 0) <= 0x8000_0000 && off_center(space, 1) <= 0x8000_0000
        && off_center(space, 2) <= 0x8000_0000 && off_center(space, 3) <= 0x8000_0000
        && off_center(space, 4) <= 0x8000_0000 && off_center(space, 5) <= 0x8000_0000
        && off_center(space, 6) <= 0x8000_0000);
}

/// Two to six entries are the children of one node, those whose boxes lie
/// nearer to zero first, and in their own order where they are equally near.
pub proof fn few_entries_are_ordered_by_magnitude(entries: Seq<Entry>, a: int, b: int)
    requires
        parameter_list::entries_fit(entries),
        2 <= entries.len() <= 6,
        forall|i: int| 0 <= i < entries.len() ==> (#[trigger] entries[i]).index == i,
        0 <= a < b < entries.len(),
    ensures
        ({
            let tree = parameter_list::build(entries);
            &&& tree is Node
            &&& tree->children.len() == entries.len()
            &&& tree->children[a] is Leaf && tree->children[b] is Leaf
            &&& magnitude(tree->children[a].space()) <= magnitude(tree->children[b].space())
            &&& magnitude(tree->children[a].space()) == magnitude(tree->children[b].space())
                ==> tree->children[a]->index < tree->children[b]->index
        }),
{
    let spaces = parameter_list::spaces_of(entries);
    let keys = parameter_list::magnitude_keys(spaces);
    an_order_is_stable(keys, a, b);
    order::stable_ordering_exists(keys);
    let items = order::ordering(keys);
    let (p, q) = (items[a], items[b]);
    assert(0 <= p < entries.len() && 0 <= q < entries.len());
    assert(entries[p].index == p && entries[q].index == q);
    assert(parameter_list::space_fits(entries[p].space));
    assert(parameter_list::space_fits(entries[q].space));
    lemma_magnitude(spaces[p]);
    lemma_magnitude(spaces[q]);
    keys_are_ordered_by_their_first_difference(keys[p], keys[q]);
    keys_are_ordered_by_their_first_difference(keys[q], keys[p]);
    if magnitude(spaces[q]) < magnitude(spaces[p]) {
        assert(less_at(keys[q], keys[p], 0));
    }
    if order::key_before(keys[p], keys[q]) {
        let d = choose|d: int| #[trigger] less_at(keys[p], keys[q], d);
        assert(d == 0);
    }
}

/// Sorted along a parameter, entries stand by the middle of their range in it;
/// where these agree the next parameter decides, from the last on to the
/// first.
pub proof fn entries_are_sorted_along_a_parameter(
    entries: Seq<Entry>,
    dimension: int,
    a: int,
    b: int,
) -> (o: int)
    requires
        parameter_list::entries_fit(entries),
        0 <= dimension < 7,
        0 <= a < b < entries.len(),
    ensures
        ({
            let sorted = parameter_list::by_dimension(entries, dimension);
            let middle = |i: int, k: int|
                parameter_list::center(sorted[i].space[(dimension + k) % 7]);
            &&& 0 <= o <= 7
            &&& forall|k: int| 0 <= k < o ==> #[trigger] middle(a, k) == middle(b, k)
            &&& o < 7 ==> middle(a, o) < middle(b, o)
        }),
{
    let spaces = parameter_list::spaces_of(entries);
    let keys = parameter_list::dimension_keys(spaces, dimension);
    an_order_is_stable(keys, a, b);
    order::stable_ordering_exists(keys);
    let items = order::ordering(keys);
    let (p, q) = (items[a], items[b]);
    assert(0 <= p < entries.len() && 0 <= q < entries.len());
    let sorted = parameter_list::by_dimension(entries, dimension);
    assert(sorted[a] == entries[p] && sorted[b] == entries[q]);
    assert(parameter_list::space_fits(entries[p].space));
    assert(parameter_list::space_fits(entries[q].space));
    lemma_magnitude(entries[p].space);
    lemma_magnitude(entries[q].space);
    let middle = |i: int, k: int| parameter_list::center(sorted[i].space[(dimension + k) % 7]);
    assert forall|k: int| 0 <= k < 7 implies #[trigger] keys[p][k] == middle(a, k) && keys[q][k]
        == middle(b, k) by {
        let d = (dimension + k) % 7;
        assert(0 <= d < 7);
        assert(i32::MIN <= parameter_list::center(entries[p].space[d]) <= i32::MAX);
        assert(i32::MIN <= parameter_list::center(entries[q].space[d]) <= i32::MAX);
    }
    keys_are_ordered_by_their_first_difference(keys[p], keys[q]);
    keys_are_ordered_by_their_first_difference(keys[q], keys[p]);
    if order::key_before(keys[p], keys[q]) {
        let d = choose|d: int| #[trigger] less_at(keys[p], keys[q], d);
        assert(keys[p][d] == middle(a, d));
        assert forall|k: int| 0 <= k < d implies #[trigger] middle(a, k) == middle(b, k) by {
            assert(keys[p][k] == keys[q][k]);
        }
        d
    } else {
        lemma_same_keys(keys[p], keys[q], 0);
        assert forall|k: int| 0 <= k < 7 implies #[trigger] middle(a, k) == middle(b, k) by {
            assert(keys[p][k] == keys[q][k]);
        }
        7
    }
}

proof fn lemma_same_keys(a: Seq<i64>, b: Seq<i64>, d: nat)
    requires
        d <= 7,
        forall|i: int| 0 <= i < d ==> #[trigger] a[i] == b[i],
        !order::before_from(a, b, d),
        !order::before_from(b, a, d),
    ensures
        forall|i: int| 0 <= i < 7 ==> #[trigger] a[i] == b[i],
    decreases 7 - d,
{
    if d < 7 {
        lemma_same_keys(a, b, d + 1);
    }
}

/// More than six entries are grouped by the largest power of six that is less
/// than their number.
pub proof fn groups_hold_a_power_of_six(total: nat) -> (k: nat)
    requires
        total >= 2,
    ensures
        parameter_list::bucket_size(total) == vstd::arithmetic::power::pow(6, k),
        parameter_list::bucket_size(total) < total,
        total <= 6 * parameter_list::bucket_size(total),
{
    parameter_list::lemma_bucket_size(total);
    vstd::arithmetic::power::lemma_pow0(6);
    lemma_power(1, 0, total)
}

proof fn lemma_power(power: nat, n: nat, total: nat) -> (k: nat)
    requires
        power == vstd::arithmetic::power::pow(6, n),
        power > 0,
    ensures
        parameter_list::power_below(power, total) == vstd::arithmetic::power::pow(6, k),
    decreases total - power,
{
    if power * 6 < total {
        assert(vstd::arithmetic::power::pow(6, n + 1) == 6 * vstd::arithmetic::power::pow(6, n))
            by {
            reveal(vstd::arithmetic::power::pow);
        }
        lemma_power(power * 6, n + 1, total)
    } else {
        n
    }
}

/// The groups are the entries in order, each of the full size but the last.
pub proof fn groups_follow_the_entries(entries: Seq<Entry>, i: int)
    requires
        entries.len() >= 7,
        0 <= i < entries.len(),
    ensures
        ({
            let size = parameter_list::bucket_size(entries.len());
            let groups = parameter_list::buckets(entries, size);
            let k = i / size as int;
            &&& 0 <= k < groups.len()
            &&& groups[k][i % size as int] == entries[i]
            &&& k < groups.len() - 1 ==> groups[k].len() == size
            &&& k == groups.len() - 1 ==> groups[k].len() == entries.len() - k * size
        }),
{
    let len = entries.len();
    let size = parameter_list::bucket_size(len);
    parameter_list::lemma_bucket_size(len);
    parameter_list::lemma_bucket_count(len, size);
    let count = parameter_list::bucket_count(len, size);
    let k = i / size as int;
    let r = i % size as int;
    vstd::arithmetic::div_mod::lemma_fundamental_div_mod(i, size as int);
    vstd::arithmetic::div_mod::lemma_mod_bound(i, size as int);
    assert(i == k * size + r) by {
        assert(size * k == k * size) by (nonlinear_arith);
    }
    assert(0 <= k) by (nonlinear_arith)
        requires
            i == k * size + r,
            0 <= i,
            r < size,
    ;
    assert(k < count) by (nonlinear_arith)
        requires
            i == k * size + r,
            i < len,
            0 <= r,
            count * size >= len,
            size >= 1,
    ;
    parameter_list::lemma_bucket_start(k, size, len);
    if k < count - 1 {
        parameter_list::lemma_bucket_start(k + 1, size, len);
        assert((k + 1) * size == k * size + size) by (nonlinear_arith);
    } else {
        assert(k * size + size >= len) by (nonlinear_arith)
            requires
                k == count - 1,
                count * size >= len,
        ;
    }
    let group = parameter_list::bucket(entries, size, k);
    assert(r < group.len());
    assert(group[r] == entries[i]);
}

/// What the groups of an order cost.
pub open spec fn order_cost(current: Seq<Entry>, size: nat) -> int {
    let hulls = parameter_list::bucket_hulls(parameter_list::buckets(current, size));
    parameter_list::cost_sum(hulls, hulls.len())
}

proof fn lemma_split_least(entries: Seq<Entry>, n: nat, m: nat)
    requires
        m < n,
    ensures
        ({
            let split = parameter_list::split_after(entries, n);
            let size = parameter_list::bucket_size(entries.len());
            let tried = parameter_list::split_after(entries, m + 1).current;
            &&& split.cost <= order_cost(tried, size)
            &&& order_cost(tried, size) < i64::MAX ==> {
                &&& split.dimension < n
                &&& split.best == parameter_list::split_after(
                    entries,
                    split.dimension + 1,
                ).current
                &&& split.cost == order_cost(split.best, size)
                &&& m < split.dimension ==> split.cost < order_cost(tried, size)
            }
        }),
    decreases n,
{
    let shorter = (n - 1) as nat;
    let size = parameter_list::bucket_size(entries.len());
    let split = parameter_list::split_after(entries, n);
    let last = parameter_list::split_after(entries, shorter);
    let current = parameter_list::by_dimension(last.current, shorter as int);
    assert(split.current == current);
    assert(last.cost > order_cost(current, size) ==> split.cost == order_cost(current, size)
        && split.dimension == shorter && split.best == current);
    assert(last.cost <= order_cost(current, size) ==> split.cost == last.cost && split.dimension
        == last.dimension && split.best == last.best);
    assert((shorter + 1) as nat == n);
    if m < shorter {
        lemma_split_least(entries, shorter, m);
    } else if shorter > 0 {
        let before = parameter_list::split_after(entries, shorter);
        if before.cost < i64::MAX {
            lemma_split_found(entries, shorter);
        }
    }
}

proof fn lemma_split_found(entries: Seq<Entry>, n: nat)
    requires
        parameter_list::split_after(entries, n).cost < i64::MAX,
    ensures
        ({
            let split = parameter_list::split_after(entries, n);
            let size = parameter_list::bucket_size(entries.len());
            &&& split.dimension < n
            &&& split.best == parameter_list::split_after(entries, split.dimension + 1).current
            &&& split.cost == order_cost(split.best, size)
        }),
    decreases n,
{
    if n > 0 {
        let before = parameter_list::split_after(entries, (n - 1) as nat);
        if before.cost < i64::MAX {
            lemma_split_found(entries, (n - 1) as nat);
        }
    }
}

/// Each parameter is tried in turn, sorting on from the order of the one
/// before; the order whose groups cost the least is taken, and of equals the
/// one that was tried first.
pub proof fn the_cheapest_order_is_taken(entries: Seq<Entry>, m: nat)
    requires
        m < 7,
    ensures
        ({
            let split = parameter_list::split_after(entries, 7);
            let size = parameter_list::bucket_size(entries.len());
            let before = parameter_list::split_after(entries, m).current;
            let tried = parameter_list::split_after(entries, m + 1).current;
            &&& tried == parameter_list::by_dimension(before, m as int)
            &&& m == 0 ==> before == entries
            &&& split.cost <= order_cost(tried, size)
            &&& order_cost(tried, size) < i64::MAX ==> {
                &&& split.dimension < 7
                &&& split.best == parameter_list::split_after(
                    entries,
                    split.dimension + 1,
                ).current
                &&& split.cost == order_cost(split.best, size)
                &&& m < split.dimension ==> split.cost < order_cost(tried, size)
            }
        }),
{
    lemma_split_least(entries, 7, m);
}

/// The groups that are chosen stand by how far the middle of their box lies
/// from zero in the parameter that they were split along.
pub proof fn groups_stand_by_their_distance_from_zero(entries: Seq<Entry>, a: int, b: int)
    requires
        entries.len() >= 7,
        parameter_list::entries_fit(entries),
        0 <= a < b < parameter_list::chosen_buckets(entries).len(),
    ensures
        ({
            let groups = parameter_list::chosen_buckets(entries);
            let d = parameter_list::split_after(entries, 7).dimension as int;
            let box_of = |k: int| parameter_list::hull(parameter_list::spaces_of(groups[k]));
            off_center(box_of(a), d) <= off_center(box_of(b), d)
        }),
{
    let split = parameter_list::split_after(entries, 7);
    parameter_list::lemma_split(entries, 7);
    let d = split.dimension as int;
    let list = parameter_list::buckets(
        split.best,
        parameter_list::bucket_size(entries.len()),
    );
    parameter_list::lemma_buckets(split.best);
    let hulls = parameter_list::bucket_hulls(list);
    let keys = parameter_list::distance_keys(hulls, d);
    an_order_is_stable(keys, a, b);
    order::stable_ordering_exists(keys);
    let items = order::ordering(keys);
    let (p, q) = (items[a], items[b]);
    assert(0 <= p < list.len() && 0 <= q < list.len());
    let groups = parameter_list::chosen_buckets(entries);
    assert(groups[a] == list[p] && groups[b] == list[q]);
    assert(parameter_list::space_fits(hulls[p]) && parameter_list::space_fits(hulls[q]));
    lemma_magnitude(hulls[p]);
    lemma_magnitude(hulls[q]);
    assert((d + 0) % 7 == d);
    assert(keys[p][0] == off_center(hulls[p], d));
    assert(keys[q][0] == off_center(hulls[q], d));
    keys_are_ordered_by_their_first_difference(keys[q], keys[p]);
    if off_center(hulls[q], d) < off_center(hulls[p], d) {
        assert(less_at(keys[q], keys[p], 0));
    }
}

/// The entries of a tree from its first leaf to its last.
pub open spec fn leaf_order(tree: Tree) -> Seq<Entry>
    decreases tree, 0nat,
{
    match tree {
        Tree::Leaf { space, index } => seq![Entry { space, index }],
        Tree::Node { space, children } => forest_order(children, children.len()),
    }
}

/// The entries of the first `n` trees from the first leaf to the last.
pub open spec fn forest_order(trees: Seq<Tree>, n: nat) -> Seq<Entry>
    decreases trees, n,
{
    if n == 0 || n > trees.len() {
        Seq::empty()
    } else {
        forest_order(trees, (n - 1) as nat) + leaf_order(trees[n - 1])
    }
}

/// The nearest of the first `n` entries after a start: another takes its place
/// only where it is nearer.
pub open spec fn nearest_after(
    entries: Seq<Entry>,
    target: Seq<i64>,
    start: Best,
    n: nat,
) -> Best
    decreases n,
{
    if n == 0 || n > entries.len() {
        start
    } else {
        let before = nearest_after(entries, target, start, (n - 1) as nat);
        let distance = nearest::true_distance(entries[n - 1].space, target);
        if distance < before.distance {
            Best { distance: distance as i64, index: Some(entries[n - 1].index) }
        } else {
            before
        }
    }
}

proof fn lemma_nearest_append(
    first: Seq<Entry>,
    second: Seq<Entry>,
    target: Seq<i64>,
    start: Best,
    n: nat,
)
    requires
        n <= second.len(),
    ensures
        nearest_after(first + second, target, start, first.len() + n) == nearest_after(
            second,
            target,
            nearest_after(first, target, start, first.len()),
            n,
        ),
    decreases n,
{
    if n > 0 {
        lemma_nearest_append(first, second, target, start, (n - 1) as nat);
        assert((first + second)[first.len() + n - 1] == second[n - 1]);
    } else {
        lemma_nearest_prefix(first, second, target, start, first.len());
    }
}

proof fn lemma_nearest_prefix(
    first: Seq<Entry>,
    second: Seq<Entry>,
    target: Seq<i64>,
    start: Best,
    n: nat,
)
    requires
        n <= first.len(),
    ensures
        nearest_after(first + second, target, start, n) == nearest_after(first, target, start, n),
    decreases n,
{
    if n > 0 {
        lemma_nearest_prefix(first, second, target, start, (n - 1) as nat);
        assert((first + second)[n - 1] == first[n - 1]);
    }
}

proof fn lemma_none_nearer(entries: Seq<Entry>, target: Seq<i64>, start: Best, n: nat)
    requires
        n <= entries.len(),
        forall|i: int|
            0 <= i < entries.len() ==> start.distance <= nearest::true_distance(
                (#[trigger] entries[i]).space,
                target,
            ),
    ensures
        nearest_after(entries, target, start, n) == start,
    decreases n,
{
    if n > 0 {
        lemma_none_nearer(entries, target, start, (n - 1) as nat);
    }
}

proof fn lemma_order_leaf(tree: Tree, i: int)
    requires
        0 <= i < leaf_order(tree).len(),
    ensures
        parameter_list::has_leaf(tree, leaf_order(tree)[i]),
    decreases tree, 0nat,
{
    match tree {
        Tree::Leaf { space, index } => {},
        Tree::Node { space, children } => {
            let k = lemma_forest_leaf(children, children.len(), i);
            assert(parameter_list::has_leaf(children[k], leaf_order(tree)[i]));
        },
    }
}

proof fn lemma_forest_leaf(trees: Seq<Tree>, n: nat, i: int) -> (k: int)
    requires
        n <= trees.len(),
        0 <= i < forest_order(trees, n).len(),
    ensures
        0 <= k < trees.len(),
        parameter_list::has_leaf(trees[k], forest_order(trees, n)[i]),
    decreases trees, n,
{
    let before = forest_order(trees, (n - 1) as nat);
    if i < before.len() {
        lemma_forest_leaf(trees, (n - 1) as nat, i)
    } else {
        lemma_order_leaf(trees[n - 1], i - before.len());
        n - 1
    }
}

proof fn lemma_search_in_order(tree: Tree, target: Seq<i64>, start: Best)
    requires
        nearest::bounding(tree),
        nearest::leaves_in_reach(tree, target),
        tree is Node,
    ensures
        parameter_list::search(tree, target, start) == nearest_after(
            leaf_order(tree),
            target,
            start,
            leaf_order(tree).len(),
        ),
    decreases tree, tree->children.len() + 1,
{
    lemma_first_in_order(tree, target, start, tree->children.len());
}

proof fn lemma_first_in_order(tree: Tree, target: Seq<i64>, start: Best, n: nat)
    requires
        nearest::bounding(tree),
        nearest::leaves_in_reach(tree, target),
        tree is Node,
        n <= tree->children.len(),
    ensures
        parameter_list::search_first(tree->children, target, start, n) == nearest_after(
            forest_order(tree->children, n),
            target,
            start,
            forest_order(tree->children, n).len(),
        ),
    decreases tree, n,
{
    if n > 0 {
        let children = tree->children;
        let m = (n - 1) as nat;
        let child = children[n - 1];
        lemma_first_in_order(tree, target, start, m);
        nearest::lemma_child_reach(tree, target, n - 1);
        assert(nearest::bounding(child));
        nearest::lemma_box_reach(child, target);
        nearest::the_kernel_is_exact_in_reach(child.space(), target);
        let first = forest_order(children, m);
        let second = leaf_order(child);
        let before = parameter_list::search_first(children, target, start, m);
        lemma_nearest_append(first, second, target, start, second.len());
        let near = parameter_list::box_distance(child.space(), target);
        if before.distance > near {
            match child {
                Tree::Leaf { space, index } => {
                    reveal_with_fuel(nearest_after, 2);
                    assert(second[0] == (Entry { space, index }));
                },
                Tree::Node { space, children: below } => {
                    lemma_search_in_order(child, target, before);
                },
            }
        } else {
            assert forall|i: int| 0 <= i < second.len() implies before.distance
                <= nearest::true_distance((#[trigger] second[i]).space, target) by {
                lemma_order_leaf(child, i);
            }
            lemma_none_nearer(second, target, before, second.len());
        }
    }
}

proof fn lemma_nearest_first(entries: Seq<Entry>, target: Seq<i64>, start: Best, n: nat)
    requires
        n <= entries.len(),
        forall|i: int|
            0 <= i < entries.len() ==> 0 <= nearest::true_distance(
                (#[trigger] entries[i]).space,
                target,
            ) < i64::MAX,
    ensures
        ({
            let found = nearest_after(entries, target, start, n);
            &&& found == start || exists|i: int|
                {
                    &&& 0 <= i < n
                    &&& (#[trigger] entries[i]).index == found.index->0
                    &&& found.index is Some
                    &&& found.distance == nearest::true_distance(entries[i].space, target)
                    &&& forall|j: int|
                        0 <= j < i ==> found.distance < nearest::true_distance(
                            (#[trigger] entries[j]).space,
                            target,
                        )
                }
            &&& found.distance <= start.distance
            &&& forall|j: int|
                0 <= j < n ==> found.distance <= nearest::true_distance(
                    (#[trigger] entries[j]).space,
                    target,
                )
        }),
    decreases n,
{
    if n > 0 {
        let m = (n - 1) as nat;
        lemma_nearest_first(entries, target, start, m);
        let before = nearest_after(entries, target, start, m);
        let distance = nearest::true_distance(entries[n - 1].space, target);
        let found = nearest_after(entries, target, start, n);
        if distance < before.distance {
            assert(entries[n - 1].index == found.index->0);
        } else if before != start {
            let i = choose|i: int|
                {
                    &&& 0 <= i < m
                    &&& (#[trigger] entries[i]).index == before.index->0
                    &&& before.index is Some
                    &&& before.distance == nearest::true_distance(entries[i].space, target)
                    &&& forall|j: int|
                        0 <= j < i ==> before.distance < nearest::true_distance(
                            (#[trigger] entries[j]).space,
                            target,
                        )
                };
            assert(entries[i].index == found.index->0);
        }
    }
}

/// Of several entries that are equally near, the one whose leaf stands first
/// in the tree is found.
pub proof fn the_first_of_the_nearest_leaves_is_found(entries: Seq<Entry>, target: Seq<i64>) -> (i:
    int)
    requires
        nearest::listed(entries),
        nearest::entries_in_reach(entries, target),
    ensures
        ({
            let found = parameter_list::looked_up(
                entries,
                target,
                parameter_list::no_candidate(),
            );
            let all = leaf_order(parameter_list::build(entries));
            &&& 0 <= i < all.len()
            &&& found == Some(all[i].index)
            &&& forall|j: int|
                0 <= j < i ==> nearest::true_distance(all[i].space, target)
                    < nearest::true_distance((#[trigger] all[j]).space, target)
            &&& forall|j: int|
                i < j < all.len() ==> nearest::true_distance(all[i].space, target)
                    <= nearest::true_distance((#[trigger] all[j]).space, target)
        }),
{
    let tree = parameter_list::build(entries);
    nearest::every_node_bounds_its_children(entries);
    nearest::lemma_leaves_in_reach(entries, target);
    let all = leaf_order(tree);
    let start = parameter_list::no_candidate();
    assert forall|i: int| 0 <= i < all.len() implies 0 <= nearest::true_distance(
        (#[trigger] all[i]).space,
        target,
    ) < i64::MAX by {
        lemma_order_leaf(tree, i);
        nearest::the_kernel_is_exact_in_reach(all[i].space, target);
    }
    match tree {
        Tree::Leaf { space, index } => 0,
        Tree::Node { space, children } => {
            lemma_search_in_order(tree, target, start);
            lemma_nearest_first(all, target, start, all.len());
            let found = parameter_list::search(tree, target, start);
            lemma_some_leaf(tree);
            assert(found.distance <= nearest::true_distance(all[0].space, target));
            assert(found != start);
            choose|i: int|
                {
                    &&& 0 <= i < all.len()
                    &&& (#[trigger] all[i]).index == found.index->0
                    &&& found.index is Some
                    &&& found.distance == nearest::true_distance(all[i].space, target)
                    &&& forall|j: int|
                        0 <= j < i ==> found.distance < nearest::true_distance(
                            (#[trigger] all[j]).space,
                            target,
                        )
                }
        },
    }
}

proof fn lemma_some_leaf(tree: Tree)
    requires
        nearest::bounding(tree),
    ensures
        leaf_order(tree).len() > 0,
    decreases tree,
{
    match tree {
        Tree::Leaf { space, index } => {},
        Tree::Node { space, children } => {
            let last = children[children.len() - 1];
            assert(nearest::bounding(last));
            lemma_some_leaf(last);
            assert(leaf_order(tree) == forest_order(children, (children.len() - 1) as nat)
                + leaf_order(last));
        },
    }
}

} // verus!
