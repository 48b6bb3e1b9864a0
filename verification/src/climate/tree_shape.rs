//! Laws of the tree over a list's entries: what it holds and how wide it is.

use crate::climate::order;
use crate::climate::parameter_list;
use crate::climate::parameter_list::{Entry, Tree};
use vstd::multiset::Multiset;
use vstd::prelude::*;

verus! {

/// What a function gives for some numbers, all together.
pub open spec fn bag_over(f: spec_fn(int) -> Multiset<Entry>, items: Seq<int>) -> Multiset<Entry>
    decreases items.len(),
{
    if items.len() == 0 {
        Multiset::empty()
    } else {
        bag_over(f, items.drop_last()).add(f(items.last()))
    }
}

/// The numbers below `n`, in order.
pub open spec fn numbers_below(n: nat) -> Seq<int> {
    Seq::new(n, |i: int| i)
}

proof fn lemma_bag_without(f: spec_fn(int) -> Multiset<Entry>, items: Seq<int>, at: int)
    requires
        0 <= at < items.len(),
    ensures
        bag_over(f, items) == bag_over(f, items.remove(at)).add(f(items[at])),
    decreases items.len(),
{
    if at == items.len() - 1 {
        assert(items.remove(at) =~= items.drop_last());
    } else {
        let rest = items.drop_last();
        lemma_bag_without(f, rest, at);
        assert(items.remove(at).drop_last() =~= rest.remove(at));
        assert(items.remove(at).last() == items.last());
        assert(bag_over(f, items) =~= bag_over(f, items.remove(at)).add(f(items[at])));
    }
}

/// The order of the numbers does not matter.
proof fn lemma_bag_any_order(f: spec_fn(int) -> Multiset<Entry>, items: Seq<int>, n: nat)
    requires
        items.len() == n,
        items.no_duplicates(),
        forall|a: int| 0 <= a < items.len() ==> 0 <= #[trigger] items[a] < n,
        forall|i: int| 0 <= i < n ==> #[trigger] items.contains(i),
    ensures
        bag_over(f, items) == bag_over(f, numbers_below(n)),
    decreases n,
{
    if n > 0 {
        let last = n - 1;
        assert(items.contains(last));
        let at = choose|at: int| 0 <= at < items.len() && items[at] == last;
        let rest = items.remove(at);
        lemma_bag_without(f, items, at);
        assert forall|a: int| 0 <= a < rest.len() implies 0 <= #[trigger] rest[a] < last by {
            let b = if a < at {
                a
            } else {
                a + 1
            };
            assert(rest[a] == items[b]);
            assert(items[b] != items[at]);
        }
        assert forall|i: int| 0 <= i < last implies #[trigger] rest.contains(i) by {
            assert(items.contains(i));
            let b = choose|b: int| 0 <= b < items.len() && items[b] == i;
            if b < at {
                assert(rest[b] == i);
            } else {
                assert(rest[b - 1] == i);
            }
        }
        assert(rest.no_duplicates()) by {
            assert forall|a: int, b: int|
                0 <= a < rest.len() && 0 <= b < rest.len() && a != b implies rest[a]
                != rest[b] by {
                let (p, q) = (
                    if a < at {
                        a
                    } else {
                        a + 1
                    },
                    if b < at {
                        b
                    } else {
                        b + 1
                    },
                );
                assert(items[p] != items[q]);
            }
        }
        lemma_bag_any_order(f, rest, last as nat);
        assert(numbers_below(n).drop_last() =~= numbers_below(last as nat));
    }
}

proof fn lemma_bag_agrees(
    f: spec_fn(int) -> Multiset<Entry>,
    items: Seq<int>,
    g: spec_fn(int) -> Multiset<Entry>,
    n: nat,
)
    requires
        n <= items.len(),
        forall|k: int| 0 <= k < n ==> f(#[trigger] items[k]) == g(k),
    ensures
        bag_over(f, items.subrange(0, n as int)) == bag_over(g, numbers_below(n)),
    decreases n,
{
    if n > 0 {
        lemma_bag_agrees(f, items, g, (n - 1) as nat);
        assert(items.subrange(0, n as int).drop_last() =~= items.subrange(0, n - 1));
        assert(numbers_below(n).drop_last() =~= numbers_below((n - 1) as nat));
        assert(f(items[n - 1]) == g(n - 1));
    }
}

/// One entry.
pub open spec fn lone(entries: Seq<Entry>) -> spec_fn(int) -> Multiset<Entry> {
    |i: int| Multiset::singleton(entries[i])
}

proof fn lemma_entries_bag(entries: Seq<Entry>, n: nat)
    requires
        n <= entries.len(),
    ensures
        bag_over(lone(entries), numbers_below(n)) == entries.subrange(0, n as int).to_multiset(),
    decreases n,
{
    if n == 0 {
        assert(entries.subrange(0, 0) =~= Seq::empty());
        broadcast use vstd::seq_lib::group_to_multiset_ensures;

        assert(entries.subrange(0, 0).to_multiset() =~= Multiset::empty());
    } else {
        lemma_entries_bag(entries, (n - 1) as nat);
        assert(numbers_below(n).drop_last() =~= numbers_below((n - 1) as nat));
        let before = entries.subrange(0, n - 1);
        assert(entries.subrange(0, n as int) =~= before.push(entries[n - 1]));
        vstd::seq_lib::to_multiset_build(before, entries[n - 1]);
        assert(before.to_multiset().add(Multiset::singleton(entries[n - 1]))
            =~= before.to_multiset().insert(entries[n - 1]));
    }
}

/// Arranging entries keeps them all.
proof fn lemma_arranged_bag(entries: Seq<Entry>, keys: Seq<Seq<i64>>)
    requires
        keys.len() == entries.len(),
    ensures
        parameter_list::arranged(entries, keys).to_multiset() == entries.to_multiset(),
{
    let way = order::ordering(keys);
    let after = parameter_list::arranged(entries, keys);
    let n = entries.len();
    order::stable_ordering_exists(keys);
    order::an_ordering_names_items_once(keys, way);
    lemma_bag_any_order(lone(entries), way, n);
    lemma_bag_agrees(lone(entries), way, lone(after), n);
    assert(way.subrange(0, n as int) =~= way);
    lemma_entries_bag(entries, n);
    lemma_entries_bag(after, n);
    assert(entries.subrange(0, n as int) =~= entries);
    assert(after.subrange(0, n as int) =~= after);
}

/// The entries of each of some lists, by the list's number.
pub open spec fn of_each(lists: Seq<Seq<Entry>>) -> spec_fn(int) -> Multiset<Entry> {
    |k: int| lists[k].to_multiset()
}

/// Cutting entries into buckets keeps them all.
proof fn lemma_buckets_bag(entries: Seq<Entry>, n: nat)
    requires
        entries.len() >= 7,
        n <= parameter_list::buckets(
            entries,
            parameter_list::bucket_size(entries.len()),
        ).len(),
    ensures
        bag_over(
            of_each(
                parameter_list::buckets(entries, parameter_list::bucket_size(entries.len())),
            ),
            numbers_below(n),
        ) == entries.subrange(
            0,
            parameter_list::bucket_start(
                n as int,
                parameter_list::bucket_size(entries.len()),
                entries.len(),
            ),
        ).to_multiset(),
    decreases n,
{
    let len = entries.len();
    let size = parameter_list::bucket_size(len);
    let list = parameter_list::buckets(entries, size);
    parameter_list::lemma_bucket_size(len);
    if n == 0 {
        assert(parameter_list::bucket_start(0, size, len) == 0);
        assert(entries.subrange(0, 0) =~= Seq::empty());
        broadcast use vstd::seq_lib::group_to_multiset_ensures;

        assert(entries.subrange(0, 0).to_multiset() =~= Multiset::empty());
    } else {
        let m = (n - 1) as nat;
        lemma_buckets_bag(entries, m);
        parameter_list::lemma_bucket_start(m as int, size, len);
        let start = parameter_list::bucket_start(m as int, size, len);
        let end = parameter_list::bucket_start(n as int, size, len);
        assert(numbers_below(n).drop_last() =~= numbers_below(m));
        assert(entries.subrange(0, end) =~= entries.subrange(0, start) + entries.subrange(
            start,
            end,
        ));
        assert(list[m as int] == entries.subrange(start, end));
        vstd::seq_lib::lemma_multiset_commutative(
            entries.subrange(0, start),
            entries.subrange(start, end),
        );
    }
}

proof fn lemma_split_bag(entries: Seq<Entry>, n: nat)
    requires
        entries.len() >= 7,
        parameter_list::entries_fit(entries),
        n <= 7,
    ensures
        parameter_list::split_after(entries, n).current.to_multiset() == entries.to_multiset(),
        parameter_list::split_after(entries, n).best.to_multiset() == entries.to_multiset(),
    decreases n,
{
    if n > 0 {
        lemma_split_bag(entries, (n - 1) as nat);
        parameter_list::lemma_split(entries, (n - 1) as nat);
        let before = parameter_list::split_after(entries, (n - 1) as nat);
        lemma_arranged_bag(
            before.current,
            parameter_list::dimension_keys(
                parameter_list::spaces_of(before.current),
                n - 1,
            ),
        );
    }
}

/// The chosen buckets hold all the entries.
proof fn lemma_chosen_bag(entries: Seq<Entry>)
    requires
        entries.len() >= 7,
        parameter_list::entries_fit(entries),
    ensures
        bag_over(
            of_each(parameter_list::chosen_buckets(entries)),
            numbers_below(parameter_list::chosen_buckets(entries).len()),
        ) == entries.to_multiset(),
{
    let split = parameter_list::split_after(entries, 7);
    let size = parameter_list::bucket_size(entries.len());
    let list = parameter_list::buckets(split.best, size);
    let keys = parameter_list::distance_keys(
        parameter_list::bucket_hulls(list),
        split.dimension as int,
    );
    let chosen = parameter_list::chosen_buckets(entries);
    let way = order::ordering(keys);
    let n = list.len();
    parameter_list::lemma_split(entries, 7);
    lemma_split_bag(entries, 7);
    parameter_list::lemma_buckets(split.best);
    order::stable_ordering_exists(keys);
    order::an_ordering_names_items_once(keys, way);
    lemma_bag_any_order(of_each(list), way, n);
    lemma_bag_agrees(of_each(list), way, of_each(chosen), n);
    assert(way.subrange(0, n as int) =~= way);
    lemma_buckets_bag(split.best, n);
    parameter_list::lemma_bucket_size(entries.len());
    parameter_list::lemma_bucket_count(entries.len(), size);
    assert(parameter_list::bucket_start(n as int, size, entries.len()) == entries.len());
    assert(split.best.subrange(0, entries.len() as int) =~= split.best);
}

/// The leaves of a tree.
pub open spec fn leaves(tree: Tree) -> Multiset<Entry>
    decreases tree, 0nat,
{
    match tree {
        Tree::Leaf { space, index } => Multiset::singleton(Entry { space, index }),
        Tree::Node { space, children } => forest_leaves(children, children.len()),
    }
}

/// The leaves of the first `n` trees.
pub open spec fn forest_leaves(trees: Seq<Tree>, n: nat) -> Multiset<Entry>
    decreases trees, n,
{
    if n == 0 || n > trees.len() {
        Multiset::empty()
    } else {
        forest_leaves(trees, (n - 1) as nat).add(leaves(trees[n - 1]))
    }
}

proof fn lemma_forest_bag(trees: Seq<Tree>, g: spec_fn(int) -> Multiset<Entry>, n: nat)
    requires
        n <= trees.len(),
        forall|k: int| 0 <= k < n ==> leaves(#[trigger] trees[k]) == g(k),
    ensures
        forest_leaves(trees, n) == bag_over(g, numbers_below(n)),
    decreases n,
{
    if n > 0 {
        lemma_forest_bag(trees, g, (n - 1) as nat);
        assert(numbers_below(n).drop_last() =~= numbers_below((n - 1) as nat));
        assert(leaves(trees[n - 1]) == g(n - 1));
    }
}

/// The tree over some entries has exactly these entries as its leaves, each as
/// often as it is given.
pub proof fn the_leaves_are_the_entries(entries: Seq<Entry>)
    requires
        entries.len() > 0,
        parameter_list::entries_fit(entries),
    ensures
        leaves(parameter_list::build(entries)) == entries.to_multiset(),
    decreases entries.len(),
{
    let tree = parameter_list::build(entries);
    if entries.len() == 1 {
        lemma_entries_bag(entries, 1);
        assert(entries.subrange(0, 1) =~= entries);
        assert(numbers_below(1).drop_last() =~= numbers_below(0));
        assert(bag_over(lone(entries), numbers_below(0)) == Multiset::<Entry>::empty());
        assert(leaves(tree) =~= entries.to_multiset());
    } else if entries.len() <= 6 {
        let sorted = parameter_list::by_magnitude(entries);
        let children = tree->children;
        assert forall|k: int| 0 <= k < children.len() implies leaves(#[trigger] children[k])
            == lone(sorted)(k) by {
            assert(children[k] == parameter_list::leaf_of(sorted[k]));
        }
        lemma_forest_bag(children, lone(sorted), children.len());
        lemma_entries_bag(sorted, sorted.len());
        assert(sorted.subrange(0, sorted.len() as int) =~= sorted);
        lemma_arranged_bag(
            entries,
            parameter_list::magnitude_keys(parameter_list::spaces_of(entries)),
        );
    } else {
        let chosen = parameter_list::chosen_buckets(entries);
        let children = tree->children;
        parameter_list::lemma_chosen_buckets(entries);
        assert forall|k: int| 0 <= k < children.len() implies leaves(#[trigger] children[k])
            == of_each(chosen)(k) by {
            assert(children[k] == parameter_list::build(chosen[k]));
            the_leaves_are_the_entries(chosen[k]);
        }
        lemma_forest_bag(children, of_each(chosen), children.len());
        lemma_chosen_bag(entries);
    }
}

/// Every node of the tree that is no leaf has two to six children.
pub open spec fn narrow(tree: Tree) -> bool
    decreases tree,
{
    match tree {
        Tree::Leaf { space, index } => true,
        Tree::Node { space, children } => {
            &&& 2 <= children.len() <= 6
            &&& forall|k: int| 0 <= k < children.len() ==> narrow(#[trigger] children[k])
        },
    }
}

/// Every node of a built tree that is no leaf has two to six children.
pub proof fn every_node_has_two_to_six_children(entries: Seq<Entry>)
    requires
        entries.len() > 0,
        parameter_list::entries_fit(entries),
    ensures
        narrow(parameter_list::build(entries)),
    decreases entries.len(),
{
    let tree = parameter_list::build(entries);
    if entries.len() > 6 {
        let chosen = parameter_list::chosen_buckets(entries);
        parameter_list::lemma_chosen_buckets(entries);
        assert forall|k: int| 0 <= k < tree->children.len() implies narrow(
            #[trigger] tree->children[k],
        ) by {
            assert(tree->children[k] == parameter_list::build(chosen[k]));
            every_node_has_two_to_six_children(chosen[k]);
        }
    } else if entries.len() > 1 {
        let sorted = parameter_list::by_magnitude(entries);
        assert forall|k: int| 0 <= k < tree->children.len() implies narrow(
            #[trigger] tree->children[k],
        ) by {
            assert(tree->children[k] == parameter_list::leaf_of(sorted[k]));
        }
    }
}

proof fn lemma_nodes(tree: Tree)
    requires
        narrow(tree),
    ensures
        parameter_list::node_count(tree) + 1 <= 2 * leaves(tree).len(),
    decreases tree, 0nat,
{
    match tree {
        Tree::Leaf { space, index } => {
            assert(leaves(tree).len() == 1);
        },
        Tree::Node { space, children } => {
            lemma_forest_nodes(children, children.len());
        },
    }
}

proof fn lemma_forest_nodes(trees: Seq<Tree>, n: nat)
    requires
        n <= trees.len(),
        forall|k: int| 0 <= k < trees.len() ==> narrow(#[trigger] trees[k]),
    ensures
        parameter_list::forest_count(trees, n) + n <= 2 * forest_leaves(trees, n).len(),
    decreases trees, n,
{
    if n > 0 {
        lemma_forest_nodes(trees, (n - 1) as nat);
        assert(narrow(trees[n - 1]));
        lemma_nodes(trees[n - 1]);
    }
}

/// The tree over some entries has fewer than twice as many nodes.
pub proof fn a_tree_has_fewer_than_twice_as_many_nodes(entries: Seq<Entry>)
    requires
        entries.len() > 0,
        parameter_list::entries_fit(entries),
    ensures
        parameter_list::node_count(parameter_list::build(entries)) < 2 * entries.len(),
{
    every_node_has_two_to_six_children(entries);
    the_leaves_are_the_entries(entries);
    lemma_nodes(parameter_list::build(entries));
    entries.to_multiset_ensures();
}

} // verus!
