//! Stable ordering by seven-part keys.

use vstd::prelude::*;

verus! {

/// A sort key: seven numbers compared in turn.
pub type Key = [i64; 7];

/// From part `d` on, `a` comes strictly before `b`.
pub open spec fn before_from(a: Seq<i64>, b: Seq<i64>, d: nat) -> bool
    decreases 7 - d,
{
    if d >= 7 {
        false
    } else if a[d as int] != b[d as int] {
        a[d as int] < b[d as int]
    } else {
        before_from(a, b, d + 1)
    }
}

/// `a` comes strictly before `b`.
pub open spec fn key_before(a: Seq<i64>, b: Seq<i64>) -> bool {
    before_from(a, b, 0)
}

/// Item `i` comes before item `j`: by key, and by position among equal keys.
pub open spec fn item_before(keys: Seq<Seq<i64>>, i: int, j: int) -> bool {
    key_before(keys[i], keys[j]) || (!key_before(keys[j], keys[i]) && i < j)
}

/// `items` stand in order, each strictly before the next ones.
pub open spec fn in_order(keys: Seq<Seq<i64>>, items: Seq<int>) -> bool {
    forall|a: int, b: int|
        0 <= a < b < items.len() ==> item_before(keys, #[trigger] items[a], #[trigger] items[b])
}

/// `items` is the stable ordering of all the keys.
pub open spec fn is_ordering(keys: Seq<Seq<i64>>, items: Seq<int>) -> bool {
    &&& items.len() == keys.len()
    &&& forall|a: int| 0 <= a < items.len() ==> 0 <= #[trigger] items[a] < keys.len()
    &&& forall|i: int| 0 <= i < keys.len() ==> #[trigger] items.contains(i)
    &&& in_order(keys, items)
}

/// The stable ordering of the keys: which item comes at each place.
pub open spec fn ordering(keys: Seq<Seq<i64>>) -> Seq<int> {
    choose|items: Seq<int>| is_ordering(keys, items)
}

proof fn lemma_before_trans(a: Seq<i64>, b: Seq<i64>, c: Seq<i64>, d: nat)
    ensures
        before_from(a, b, d) && before_from(b, c, d) ==> before_from(a, c, d),
        !before_from(b, a, d) && !before_from(c, b, d) ==> !before_from(c, a, d),
        before_from(a, b, d) && !before_from(c, b, d) ==> before_from(a, c, d),
        !before_from(b, a, d) && before_from(b, c, d) ==> before_from(a, c, d),
        !(before_from(a, b, d) && before_from(b, a, d)),
    decreases 7 - d,
{
    if d < 7 {
        lemma_before_trans(a, b, c, d + 1);
    }
}

proof fn lemma_item_before_trans(keys: Seq<Seq<i64>>, i: int, j: int, k: int)
    ensures
        item_before(keys, i, j) && item_before(keys, j, k) ==> item_before(keys, i, k),
        !item_before(keys, i, i),
        i != j && !item_before(keys, i, j) ==> item_before(keys, j, i),
        item_before(keys, i, j) ==> i != j,
{
    lemma_before_trans(keys[i], keys[j], keys[k], 0);
    lemma_before_trans(keys[i], keys[i], keys[i], 0);
    lemma_before_trans(keys[j], keys[i], keys[j], 0);
    lemma_before_trans(keys[k], keys[j], keys[i], 0);
}

/// An ordering names every item once.
pub proof fn an_ordering_names_items_once(keys: Seq<Seq<i64>>, items: Seq<int>)
    requires
        is_ordering(keys, items),
    ensures
        items.no_duplicates(),
{
    assert forall|a: int, b: int|
        0 <= a < items.len() && 0 <= b < items.len() && a != b implies items[a] != items[b] by {
        lemma_item_before_trans(keys, items[a], items[b], items[a]);
        lemma_item_before_trans(keys, items[b], items[a], items[b]);
        if a < b {
            assert(item_before(keys, items[a], items[b]));
        } else {
            assert(item_before(keys, items[b], items[a]));
        }
    }
}

/// There is one stable ordering only.
pub proof fn stable_ordering_is_unique(keys: Seq<Seq<i64>>, p: Seq<int>, q: Seq<int>)
    requires
        is_ordering(keys, p),
        is_ordering(keys, q),
    ensures
        p == q,
{
    lemma_prefix_unique(keys, p, q, keys.len());
    assert(p =~= q);
}

proof fn lemma_prefix_unique(keys: Seq<Seq<i64>>, p: Seq<int>, q: Seq<int>, n: nat)
    requires
        is_ordering(keys, p),
        is_ordering(keys, q),
        n <= keys.len(),
    ensures
        forall|a: int| 0 <= a < n ==> p[a] == q[a],
    decreases n,
{
    if n > 0 {
        let i = n - 1;
        lemma_prefix_unique(keys, p, q, i as nat);
        assert(q.contains(p[i]));
        assert(p.contains(q[i]));
        let k = choose|k: int| 0 <= k < q.len() && q[k] == p[i];
        let m = choose|m: int| 0 <= m < p.len() && p[m] == q[i];
        lemma_item_before_trans(keys, p[i], q[i], p[i]);
        lemma_item_before_trans(keys, p[i], p[i], p[i]);
        if p[i] != q[i] {
            if k < i {
                assert(p[k] == q[k]);
                assert(item_before(keys, p[k], p[i]));
            }
            if m < i {
                assert(p[m] == q[m]);
                assert(item_before(keys, q[m], q[i]));
                lemma_item_before_trans(keys, q[i], q[i], q[i]);
            }
            assert(k > i);
            assert(m > i);
            assert(item_before(keys, q[i], q[k]));
            assert(item_before(keys, p[i], p[m]));
        }
    }
}

pub proof fn lemma_ordering(keys: Seq<Seq<i64>>, items: Seq<int>)
    requires
        is_ordering(keys, items),
    ensures
        ordering(keys) == items,
{
    stable_ordering_is_unique(keys, items, ordering(keys));
}

/// Every list of keys has its stable ordering.
pub proof fn stable_ordering_exists(keys: Seq<Seq<i64>>)
    ensures
        is_ordering(keys, ordering(keys)),
{
    let items = lemma_ordering_of_prefix(keys, keys.len());
    assert(is_ordering(keys, items));
}

proof fn lemma_ordering_of_prefix(keys: Seq<Seq<i64>>, n: nat) -> (items: Seq<int>)
    requires
        n <= keys.len(),
    ensures
        covers(keys, items, 0, n as int),
    decreases n,
{
    if n == 0 {
        Seq::<int>::empty()
    } else {
        let fresh = n - 1;
        let before = lemma_ordering_of_prefix(keys, fresh as nat);
        let at = lemma_place(keys, before, fresh, before.len());
        let items = before.insert(at, fresh);
        assert forall|i: int| 0 <= i < n implies #[trigger] items.contains(i) by {
            if i == fresh {
                assert(items[at] == fresh);
            } else {
                assert(before.contains(i));
                let k = choose|k: int| 0 <= k < before.len() && before[k] == i;
                if k < at {
                    assert(items[k] == i);
                } else {
                    assert(items[k + 1] == i);
                }
            }
        }
        assert forall|a: int, b: int| 0 <= a < b < items.len() implies item_before(
            keys,
            #[trigger] items[a],
            #[trigger] items[b],
        ) by {
            let from_a = if a <= at {
                a
            } else {
                a - 1
            };
            let from_b = if b <= at {
                b
            } else {
                b - 1
            };
            if a != at && b != at {
                assert(item_before(keys, before[from_a], before[from_b]));
            } else if a == at {
                assert(items[b] == before[b - 1]);
                assert(item_before(keys, fresh, before[b - 1]));
            } else {
                assert(items[a] == before[a]);
                assert(item_before(keys, before[a], fresh));
            }
        }
        items
    }
}

/// The place among the first `n` ordered items where a later item belongs.
proof fn lemma_place(keys: Seq<Seq<i64>>, items: Seq<int>, fresh: int, n: nat) -> (at: int)
    requires
        n <= items.len(),
        in_order(keys, items),
        forall|a: int| 0 <= a < items.len() ==> #[trigger] items[a] != fresh,
        forall|a: int| n <= a < items.len() ==> item_before(keys, fresh, #[trigger] items[a]),
    ensures
        0 <= at <= n,
        forall|a: int| 0 <= a < at ==> item_before(keys, #[trigger] items[a], fresh),
        forall|a: int| at <= a < items.len() ==> item_before(keys, fresh, #[trigger] items[a]),
    decreases n,
{
    if n == 0 {
        0
    } else {
        let last = items[n - 1];
        lemma_item_before_trans(keys, fresh, last, fresh);
        if item_before(keys, fresh, last) {
            lemma_place(keys, items, fresh, (n - 1) as nat)
        } else {
            assert forall|a: int| 0 <= a < n implies item_before(
                keys,
                #[trigger] items[a],
                fresh,
            ) by {
                if a < n - 1 {
                    assert(item_before(keys, items[a], items[n - 1]));
                    lemma_item_before_trans(keys, items[a], last, fresh);
                }
            }
            n as int
        }
    }
}

/// The keys as sequences.
pub open spec fn key_views(keys: Seq<Key>) -> Seq<Seq<i64>> {
    Seq::new(keys.len(), |i: int| keys[i]@)
}

/// Indices as integers.
pub open spec fn as_ints(items: Seq<usize>) -> Seq<int> {
    Seq::new(items.len(), |i: int| items[i] as int)
}

fn is_before(a: &Key, b: &Key) -> (r: bool)
    ensures
        r == key_before(a@, b@),
{
    let mut d: usize = 0;
    while d < 7
        invariant
            d <= 7,
            key_before(a@, b@) == before_from(a@, b@, d as nat),
        decreases 7 - d,
    {
        if a[d] != b[d] {
            return a[d] < b[d];
        }
        d += 1;
    }
    false
}

/// `items` holds exactly the indices from `low` to `high`, in order.
pub open spec fn covers(keys: Seq<Seq<i64>>, items: Seq<int>, low: int, high: int) -> bool {
    &&& items.len() == high - low
    &&& forall|a: int| 0 <= a < items.len() ==> low <= #[trigger] items[a] < high
    &&& forall|i: int| low <= i < high ==> #[trigger] items.contains(i)
    &&& in_order(keys, items)
}

/// Merges two ordered runs whose indices lie in adjacent ranges.
fn merge(keys: &Vec<Key>, left: &Vec<usize>, right: &Vec<usize>, low: usize, mid: usize, high: usize) -> (r: Vec<usize>)
    requires
        low <= mid <= high <= keys@.len(),
        covers(key_views(keys@), as_ints(left@), low as int, mid as int),
        covers(key_views(keys@), as_ints(right@), mid as int, high as int),
    ensures
        covers(key_views(keys@), as_ints(r@), low as int, high as int),
{
    let ghost kv = key_views(keys@);
    let ghost l = as_ints(left@);
    let ghost rt = as_ints(right@);
    let mut out: Vec<usize> = Vec::with_capacity(high - low);
    let mut i: usize = 0;
    let mut j: usize = 0;
    while i < left.len() || j < right.len()
        invariant
            low <= mid <= high <= keys@.len(),
            kv == key_views(keys@),
            l == as_ints(left@),
            rt == as_ints(right@),
            covers(kv, l, low as int, mid as int),
            covers(kv, rt, mid as int, high as int),
            i <= left@.len(),
            j <= right@.len(),
            out@.len() == i + j,
            in_order(kv, as_ints(out@)),
            forall|a: int| 0 <= a < out@.len() ==> low <= #[trigger] as_ints(out@)[a] < high,
            forall|a: int| 0 <= a < i ==> as_ints(out@).contains(#[trigger] l[a]),
            forall|b: int| 0 <= b < j ==> as_ints(out@).contains(#[trigger] rt[b]),
            forall|a: int, c: int|
                0 <= c < out@.len() && i <= a < l.len() ==> item_before(
                    kv,
                    #[trigger] as_ints(out@)[c],
                    #[trigger] l[a],
                ),
            forall|b: int, c: int|
                0 <= c < out@.len() && j <= b < rt.len() ==> item_before(
                    kv,
                    #[trigger] as_ints(out@)[c],
                    #[trigger] rt[b],
                ),
        decreases left@.len() - i + right@.len() - j,
    {
        let ghost before = as_ints(out@);
        let take_left = if i >= left.len() {
            false
        } else if j >= right.len() {
            true
        } else {
            assert(l[i as int] == left@[i as int]);
            assert(rt[j as int] == right@[j as int]);
            let later = is_before(&keys[right[j]], &keys[left[i]]);
            proof {
                lemma_item_before_trans(kv, l[i as int], rt[j as int], l[i as int]);
            }
            !later
        };
        let next: usize = if take_left {
            left[i]
        } else {
            right[j]
        };
        let ghost picked = next as int;
        proof {
            if take_left {
                assert(l[i as int] == picked);
                if j < rt.len() {
                    assert(item_before(kv, picked, rt[j as int]));
                }
                assert forall|b: int| j <= b < rt.len() implies item_before(
                    kv,
                    picked,
                    #[trigger] rt[b],
                ) by {
                    if b > j {
                        assert(item_before(kv, rt[j as int], rt[b]));
                        lemma_item_before_trans(kv, picked, rt[j as int], rt[b]);
                    }
                }
                assert forall|a: int| i < a < l.len() implies item_before(
                    kv,
                    picked,
                    #[trigger] l[a],
                ) by {
                    assert(item_before(kv, l[i as int], l[a]));
                }
            } else {
                assert(rt[j as int] == picked);
                assert forall|a: int| i <= a < l.len() implies item_before(
                    kv,
                    picked,
                    #[trigger] l[a],
                ) by {
                    assert(item_before(kv, picked, l[i as int]));
                    if a > i {
                        assert(item_before(kv, l[i as int], l[a]));
                        lemma_item_before_trans(kv, picked, l[i as int], l[a]);
                    }
                }
                assert forall|b: int| j < b < rt.len() implies item_before(
                    kv,
                    picked,
                    #[trigger] rt[b],
                ) by {
                    assert(item_before(kv, rt[j as int], rt[b]));
                }
            }
        }
        out.push(next);
        proof {
            let after = as_ints(out@);
            assert(after == before.push(picked));
            assert(after[before.len() as int] == picked);
            assert forall|x: int| #[trigger] before.contains(x) implies after.contains(x) by {
                let k = choose|k: int| 0 <= k < before.len() && before[k] == x;
                assert(after[k] == x);
            }
            assert(after.contains(picked));
            assert forall|a: int, b: int| 0 <= a < b < after.len() implies item_before(
                kv,
                #[trigger] after[a],
                #[trigger] after[b],
            ) by {
                if b < before.len() {
                    assert(item_before(kv, before[a], before[b]));
                } else {
                    assert(item_before(kv, before[a], picked));
                }
            }
        }
        if take_left {
            i += 1;
        } else {
            j += 1;
        }
    }
    proof {
        assert forall|x: int| low <= x < high implies #[trigger] as_ints(out@).contains(x) by {
            if x < mid {
                assert(l.contains(x));
                let a = choose|a: int| 0 <= a < l.len() && l[a] == x;
                assert(as_ints(out@).contains(l[a]));
            } else {
                assert(rt.contains(x));
                let b = choose|b: int| 0 <= b < rt.len() && rt[b] == x;
                assert(as_ints(out@).contains(rt[b]));
            }
        }
    }
    out
}

fn sort_range(keys: &Vec<Key>, low: usize, high: usize) -> (r: Vec<usize>)
    requires
        low <= high <= keys@.len(),
    ensures
        covers(key_views(keys@), as_ints(r@), low as int, high as int),
    decreases high - low,
{
    if high - low == 0 {
        return Vec::new();
    }
    if high - low == 1 {
        let mut single: Vec<usize> = Vec::new();
        single.push(low);
        assert(as_ints(single@)[0] == low);
        return single;
    }
    let mid: usize = low + (high - low) / 2;
    let left = sort_range(keys, low, mid);
    let right = sort_range(keys, mid, high);
    merge(keys, &left, &right, low, mid, high)
}

/// The stable ordering of the keys, smallest first.
pub fn stable_order(keys: &Vec<Key>) -> (r: Vec<usize>)
    ensures
        as_ints(r@) == ordering(key_views(keys@)),
        is_ordering(key_views(keys@), as_ints(r@)),
{
    let r = sort_range(keys, 0, keys.len());
    proof {
        lemma_ordering(key_views(keys@), as_ints(r@));
    }
    r
}

} // verus!
