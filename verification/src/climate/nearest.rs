//! Laws of the biome lookup: what it finds is nearest.

use crate::climate::parameter_list;
use crate::climate::parameter_list::{Best, Entry, Space, Tree};
use crate::climate::types;
use crate::climate::types::Parameter;
use vstd::prelude::*;

verus! {

/// How far a coordinate lies outside a range.
pub open spec fn true_gap(p: Parameter, t: i64) -> int {
    if t - p.max > 0 && t - p.max >= p.min - t {
        t - p.max
    } else if p.min - t > 0 {
        p.min - t
    } else {
        0
    }
}

/// The sum of the squared gaps of the first `n` dimensions.
pub open spec fn true_squares(space: Space, target: Seq<i64>, n: nat) -> int
    decreases n,
{
    if n == 0 {
        0
    } else {
        true_squares(space, target, (n - 1) as nat) + true_gap(space[n - 1], target[n - 1])
            * true_gap(space[n - 1], target[n - 1])
    }
}

/// The squared distance from a target to a box.
pub open spec fn true_distance(space: Space, target: Seq<i64>) -> int {
    true_squares(space, target, 7)
}

/// The squared distance from the target to the box is a 64-bit number, below the
/// largest one, which stands for no candidate; and so are the differences to the
/// box's ends.
pub open spec fn in_reach(space: Space, target: Seq<i64>) -> bool {
    &&& space.len() == 7
    &&& target.len() == 7
    &&& forall|d: int| 0 <= d < 7 ==> side_in_reach(#[trigger] space[d], target[d])
    &&& true_distance(space, target) < i64::MAX
}

pub open spec fn side_in_reach(p: Parameter, t: i64) -> bool {
    i64::MIN <= t - p.max <= i64::MAX && i64::MIN <= p.min - t <= i64::MAX
}

proof fn lemma_squares_grow(space: Space, target: Seq<i64>, n: nat, m: nat)
    requires
        n <= m,
    ensures
        0 <= true_squares(space, target, n) <= true_squares(space, target, m),
    decreases m,
{
    if m > 0 {
        let g = true_gap(space[m - 1], target[m - 1]);
        assert(0 <= g * g) by (nonlinear_arith);
        if n < m {
            lemma_squares_grow(space, target, n, (m - 1) as nat);
        } else {
            lemma_squares_grow(space, target, (n - 1) as nat, (n - 1) as nat);
        }
    }
}

proof fn lemma_exact_squares(space: Space, target: Seq<i64>, n: nat)
    requires
        in_reach(space, target),
        n <= 7,
    ensures
        parameter_list::gap_squares(space, target, n) == true_squares(space, target, n),
        0 <= true_squares(space, target, n) < i64::MAX,
    decreases n,
{
    lemma_squares_grow(space, target, n, 7);
    if n > 0 {
        lemma_exact_squares(space, target, (n - 1) as nat);
        let p = space[n - 1];
        let t = target[n - 1];
        assert(side_in_reach(p, t));
        let g = true_gap(p, t);
        assert(parameter_list::gap(p, t) == g);
        assert(0 <= g * g) by (nonlinear_arith);
    }
}

/// For a target in reach, the kernel computes the exact squared distance.
pub proof fn the_kernel_is_exact_in_reach(space: Space, target: Seq<i64>)
    requires
        in_reach(space, target),
    ensures
        parameter_list::box_distance(space, target) == true_distance(space, target),
        0 <= true_distance(space, target) < i64::MAX,
{
    lemma_exact_squares(space, target, 7);
}

/// A box inside another is no nearer.
pub open spec fn inside(inner: Space, outer: Space) -> bool {
    forall|d: int|
        0 <= d < 7 ==> (#[trigger] outer[d]).min <= inner[d].min && inner[d].max <= outer[d].max
}

proof fn lemma_inside_squares(inner: Space, outer: Space, target: Seq<i64>, n: nat)
    requires
        inside(inner, outer),
        n <= 7,
    ensures
        true_squares(outer, target, n) <= true_squares(inner, target, n),
    decreases n,
{
    if n > 0 {
        lemma_inside_squares(inner, outer, target, (n - 1) as nat);
        let a = true_gap(outer[n - 1], target[n - 1]);
        let b = true_gap(inner[n - 1], target[n - 1]);
        assert(a <= b);
        assert(a * a <= b * b) by (nonlinear_arith)
            requires
                0 <= a <= b,
        ;
    }
}

proof fn lemma_in_hull(spaces: Seq<Space>, k: int)
    requires
        0 <= k < spaces.len(),
    ensures
        inside(spaces[k], parameter_list::hull(spaces)),
    decreases spaces.len(),
{
    if spaces.len() > 1 {
        let rest = spaces.drop_last();
        let outer = parameter_list::hull(spaces);
        if k < spaces.len() - 1 {
            lemma_in_hull(rest, k);
            assert(rest[k] == spaces[k]);
            assert forall|d: int| 0 <= d < 7 implies (#[trigger] outer[d]).min <= spaces[k][d].min
                && spaces[k][d].max <= outer[d].max by {
                assert(outer[d] == types::spanned(
                    spaces.last()[d],
                    parameter_list::hull(rest)[d],
                ));
            }
        } else {
            assert forall|d: int| 0 <= d < 7 implies (#[trigger] outer[d]).min <= spaces[k][d].min
                && spaces[k][d].max <= outer[d].max by {
                assert(outer[d] == types::spanned(
                    spaces.last()[d],
                    parameter_list::hull(rest)[d],
                ));
            }
        }
    }
}

proof fn lemma_hull_in_reach(spaces: Seq<Space>, target: Seq<i64>)
    requires
        spaces.len() > 0,
        forall|k: int| 0 <= k < spaces.len() ==> in_reach(#[trigger] spaces[k], target),
    ensures
        in_reach(parameter_list::hull(spaces), target),
    decreases spaces.len(),
{
    if spaces.len() > 1 {
        let rest = spaces.drop_last();
        assert forall|k: int| 0 <= k < rest.len() implies in_reach(#[trigger] rest[k], target) by {
            assert(rest[k] == spaces[k]);
        }
        lemma_hull_in_reach(rest, target);
        let outer = parameter_list::hull(spaces);
        assert(in_reach(spaces.last(), target));
        assert forall|d: int| 0 <= d < 7 implies side_in_reach(#[trigger] outer[d], target[d]) by {
            assert(outer[d] == types::spanned(spaces.last()[d], parameter_list::hull(rest)[d]));
            assert(side_in_reach(spaces.last()[d], target[d]));
            assert(side_in_reach(parameter_list::hull(rest)[d], target[d]));
        }
        lemma_in_hull(spaces, 0);
        lemma_inside_squares(spaces[0], outer, target, 7);
        assert(in_reach(spaces[0], target));
    }
}

/// Every node's box is the one around its children.
pub open spec fn bounding(tree: Tree) -> bool
    decreases tree,
{
    match tree {
        Tree::Leaf { space, index } => true,
        Tree::Node { space, children } => {
            &&& children.len() > 0
            &&& space == parameter_list::hull(parameter_list::tree_spaces(children))
            &&& forall|k: int| 0 <= k < children.len() ==> bounding(#[trigger] children[k])
        },
    }
}

/// Every node of the built tree bounds its children.
pub proof fn every_node_bounds_its_children(entries: Seq<Entry>)
    requires
        entries.len() > 0,
        parameter_list::entries_fit(entries),
    ensures
        bounding(parameter_list::build(entries)),
    decreases entries.len(),
{
    let tree = parameter_list::build(entries);
    if entries.len() == 1 {
    } else if entries.len() <= 6 {
        let sorted = parameter_list::by_magnitude(entries);
        assert(parameter_list::tree_spaces(tree->children) == parameter_list::spaces_of(sorted));
        assert forall|k: int| 0 <= k < tree->children.len() implies bounding(
            #[trigger] tree->children[k],
        ) by {
            assert(tree->children[k] == parameter_list::leaf_of(sorted[k]));
        }
    } else {
        let chosen = parameter_list::chosen_buckets(entries);
        parameter_list::lemma_chosen_buckets(entries);
        assert forall|k: int| 0 <= k < tree->children.len() implies bounding(
            #[trigger] tree->children[k],
        ) by {
            assert(tree->children[k] == parameter_list::build(chosen[k]));
            every_node_bounds_its_children(chosen[k]);
        }
    }
}

/// All leaves of the tree are in reach of the target.
pub open spec fn leaves_in_reach(tree: Tree, target: Seq<i64>) -> bool {
    forall|e: Entry| #[trigger] parameter_list::has_leaf(tree, e) ==> in_reach(e.space, target)
}

/// Where all leaves of a tree are in reach, so are those of a child.
pub proof fn lemma_child_reach(tree: Tree, target: Seq<i64>, k: int)
    requires
        leaves_in_reach(tree, target),
        tree is Node,
        0 <= k < tree->children.len(),
    ensures
        leaves_in_reach(tree->children[k], target),
{
    assert forall|e: Entry| #[trigger]
        parameter_list::has_leaf(tree->children[k], e) implies in_reach(e.space, target) by {
        assert(parameter_list::has_leaf(tree, e));
    }
}

/// A tree's box is in reach where its leaves are, and no farther than any.
pub proof fn lemma_box_reach(tree: Tree, target: Seq<i64>)
    requires
        bounding(tree),
        leaves_in_reach(tree, target),
    ensures
        in_reach(tree.space(), target),
        forall|e: Entry| #[trigger]
            parameter_list::has_leaf(tree, e) ==> true_distance(tree.space(), target)
                <= true_distance(e.space, target),
    decreases tree,
{
    match tree {
        Tree::Leaf { space, index } => {
            assert(parameter_list::has_leaf(tree, (Entry { space, index })));
        },
        Tree::Node { space, children } => {
            let spaces = parameter_list::tree_spaces(children);
            assert forall|k: int| 0 <= k < spaces.len() implies in_reach(
                #[trigger] spaces[k],
                target,
            ) by {
                lemma_child_reach(tree, target, k);
                lemma_box_reach(children[k], target);
            }
            lemma_hull_in_reach(spaces, target);
            assert forall|e: Entry| #[trigger]
                parameter_list::has_leaf(tree, e) implies true_distance(space, target)
                <= true_distance(e.space, target) by {
                let k = choose|k: int|
                    0 <= k < children.len() && parameter_list::has_leaf(#[trigger] children[k], e);
                lemma_child_reach(tree, target, k);
                lemma_box_reach(children[k], target);
                lemma_in_hull(spaces, k);
                lemma_inside_squares(spaces[k], space, target, 7);
            }
        },
    }
}

/// What a search result owes: it is the starting candidate or strictly nearer,
/// and no leaf is nearer.
pub open spec fn nearest_of(found: Best, start: Best, tree: Tree, target: Seq<i64>) -> bool {
    &&& found == start || found.distance < start.distance
    &&& forall|e: Entry| #[trigger]
        parameter_list::has_leaf(tree, e) ==> found.distance <= true_distance(e.space, target)
}

proof fn lemma_search_nearest(tree: Tree, target: Seq<i64>, start: Best)
    requires
        bounding(tree),
        leaves_in_reach(tree, target),
        tree is Node,
    ensures
        nearest_of(parameter_list::search(tree, target, start), start, tree, target),
    decreases tree, tree->children.len() + 1,
{
    let children = tree->children;
    lemma_first_nearest(tree, target, start, children.len());
    let found = parameter_list::search(tree, target, start);
    assert forall|e: Entry| #[trigger] parameter_list::has_leaf(tree, e) implies found.distance
        <= true_distance(e.space, target) by {
        let k = choose|k: int|
            0 <= k < children.len() && parameter_list::has_leaf(#[trigger] children[k], e);
        assert(parameter_list::has_leaf(children[k], e));
    }
}

proof fn lemma_first_nearest(tree: Tree, target: Seq<i64>, start: Best, n: nat)
    requires
        bounding(tree),
        leaves_in_reach(tree, target),
        tree is Node,
        n <= tree->children.len(),
    ensures
        ({
            let found = parameter_list::search_first(tree->children, target, start, n);
            &&& found == start || found.distance < start.distance
            &&& forall|k: int, e: Entry|
                0 <= k < n && #[trigger] parameter_list::has_leaf(tree->children[k], e)
                    ==> found.distance <= true_distance(e.space, target)
        }),
    decreases tree, n,
{
    if n > 0 {
        let children = tree->children;
        let m = (n - 1) as nat;
        lemma_first_nearest(tree, target, start, m);
        let before = parameter_list::search_first(children, target, start, m);
        let found = parameter_list::search_first(children, target, start, n);
        let child = children[n - 1];
        lemma_child_reach(tree, target, n - 1);
        lemma_box_reach(child, target);
        the_kernel_is_exact_in_reach(child.space(), target);
        if child is Node {
            assert(decreases_to!(tree => tree->children[n - 1]));
            lemma_search_nearest(child, target, before);
        }
        assert forall|k: int, e: Entry|
            0 <= k < n && #[trigger] parameter_list::has_leaf(children[k], e) implies found.distance
            <= true_distance(e.space, target) by {
            if k == n - 1 {
                assert(parameter_list::has_leaf(child, e));
            }
        }
    }
}

/// All entries are in reach of the target.
pub open spec fn entries_in_reach(entries: Seq<Entry>, target: Seq<i64>) -> bool {
    forall|i: int| 0 <= i < entries.len() ==> in_reach((#[trigger] entries[i]).space, target)
}

/// Entries as a list gives them: in order, with 32-bit boxes.
pub open spec fn listed(entries: Seq<Entry>) -> bool {
    &&& entries.len() > 0
    &&& parameter_list::entries_fit(entries)
    &&& forall|i: int| 0 <= i < entries.len() ==> (#[trigger] entries[i]).index == i
}

/// The leaves are in reach where the entries are.
pub proof fn lemma_leaves_in_reach(entries: Seq<Entry>, target: Seq<i64>)
    requires
        listed(entries),
        entries_in_reach(entries, target),
    ensures
        leaves_in_reach(parameter_list::build(entries), target),
{
    let tree = parameter_list::build(entries);
    assert forall|e: Entry| #[trigger] parameter_list::has_leaf(tree, e) implies in_reach(
        e.space,
        target,
    ) by {
        parameter_list::the_tree_holds_exactly_the_entries(entries, e);
        let i = choose|i: int| 0 <= i < entries.len() && entries[i] == e;
        assert(in_reach(entries[i].space, target));
    }
}

/// For every target in reach, a lookup finds an entry, and no entry is nearer
/// to the target.
pub proof fn a_lookup_finds_the_nearest(entries: Seq<Entry>, target: Seq<i64>)
    requires
        listed(entries),
        entries_in_reach(entries, target),
    ensures
        ({
            let found = parameter_list::looked_up(entries, target, parameter_list::no_candidate());
            &&& found is Some
            &&& found->0 < entries.len()
            &&& forall|j: int|
                0 <= j < entries.len() ==> true_distance(entries[found->0 as int].space, target)
                    <= true_distance((#[trigger] entries[j]).space, target)
        }),
{
    lemma_lookup(entries, target, parameter_list::no_candidate());
}

/// For every target in reach, a lookup that starts from a remembered entry
/// finds an entry that none is nearer than, and keeps the remembered one where
/// that is as near as any.
pub proof fn a_cached_lookup_finds_the_nearest_and_keeps_ties(
    entries: Seq<Entry>,
    target: Seq<i64>,
    cache: usize,
)
    requires
        listed(entries),
        entries.len() > 1,
        entries_in_reach(entries, target),
        cache < entries.len(),
    ensures
        ({
            let start = parameter_list::cached_candidate(entries, target, Some(cache));
            let found = parameter_list::looked_up(entries, target, start);
            &&& found is Some
            &&& found->0 < entries.len()
            &&& forall|j: int|
                0 <= j < entries.len() ==> true_distance(entries[found->0 as int].space, target)
                    <= true_distance((#[trigger] entries[j]).space, target)
            &&& (forall|j: int|
                0 <= j < entries.len() ==> true_distance(entries[cache as int].space, target)
                    <= true_distance((#[trigger] entries[j]).space, target)) ==> found->0 == cache
        }),
{
    let start = parameter_list::cached_candidate(entries, target, Some(cache));
    assert(in_reach(entries[cache as int].space, target));
    the_kernel_is_exact_in_reach(entries[cache as int].space, target);
    lemma_lookup(entries, target, start);
    let found = parameter_list::looked_up(entries, target, start);
    let tree = parameter_list::build(entries);
    let best = parameter_list::search(tree, target, start);
    if forall|j: int|
        0 <= j < entries.len() ==> true_distance(entries[cache as int].space, target)
            <= true_distance((#[trigger] entries[j]).space, target) {
        assert(best.distance <= start.distance);
        if best != start {
            assert(true_distance(entries[found->0 as int].space, target) < true_distance(
                entries[cache as int].space,
                target,
            ));
        }
    }
}

proof fn lemma_lookup(entries: Seq<Entry>, target: Seq<i64>, start: Best)
    requires
        listed(entries),
        entries_in_reach(entries, target),
        start.index is None ==> start.distance == i64::MAX,
        start.index is Some ==> start.index->0 < entries.len() && start.distance == true_distance(
            entries[start.index->0 as int].space,
            target,
        ),
    ensures
        ({
            let found = parameter_list::looked_up(entries, target, start);
            &&& found is Some
            &&& found->0 < entries.len()
            &&& forall|j: int|
                0 <= j < entries.len() ==> true_distance(entries[found->0 as int].space, target)
                    <= true_distance((#[trigger] entries[j]).space, target)
            &&& entries.len() > 1 ==> {
                let best = parameter_list::search(parameter_list::build(entries), target, start);
                &&& best.index == found
                &&& best == start || best.distance < start.distance
                &&& best.distance == true_distance(entries[found->0 as int].space, target)
            }
        }),
{
    let tree = parameter_list::build(entries);
    lemma_leaves_in_reach(entries, target);
    every_node_bounds_its_children(entries);
    assert forall|j: int| 0 <= j < entries.len() implies #[trigger] parameter_list::has_leaf(
        tree,
        entries[j],
    ) by {
        parameter_list::the_tree_holds_exactly_the_entries(entries, entries[j]);
        assert(entries.contains(entries[j]));
    }
    if entries.len() == 1 {
        assert(entries[0].index == 0);
    } else {
        if entries.len() > 6 {
            parameter_list::lemma_chosen_buckets(entries);
        }
        assert(tree is Node);
        lemma_search_nearest(tree, target, start);
        let best = parameter_list::search(tree, target, start);
        assert(parameter_list::has_leaf(tree, entries[0]));
        assert(in_reach(entries[0].space, target));
        the_kernel_is_exact_in_reach(entries[0].space, target);
        assert(best.distance <= true_distance(entries[0].space, target));
        parameter_list::lemma_search_index(tree, target, start);
        if best != start {
            parameter_list::lemma_search_found(tree, target, start);
            let e = choose|e: Entry| #[trigger]
                parameter_list::has_leaf(tree, e) && e.index == best.index->0
                    && parameter_list::box_distance(e.space, target) == best.distance;
            parameter_list::the_tree_holds_exactly_the_entries(entries, e);
            let i = choose|i: int| 0 <= i < entries.len() && entries[i] == e;
            assert(entries[i].index == i);
            the_kernel_is_exact_in_reach(e.space, target);
        }
        assert forall|j: int| 0 <= j < entries.len() implies best.distance <= true_distance(
            (#[trigger] entries[j]).space,
            target,
        ) by {
            assert(parameter_list::has_leaf(tree, entries[j]));
        }
    }
}

} // verus!
