//! Stable ordering of a list by a key.
//!
//! The order of a list is given as the list of its positions: first the
//! position of the item that stands first, and so on. Items with equal keys
//! keep the order in which they were given.

use vstd::prelude::*;

verus! {

/// A type whose values are ranked by a total preorder.
pub trait Ranked: Sized {
    /// Whether `self` may stand before `other`.
    spec fn le(&self, other: &Self) -> bool;

    /// Of two values one may stand before the other.
    proof fn lemma_total(a: &Self, b: &Self)
        ensures
            a.le(b) || b.le(a),
    ;

    /// What may stand before a value may stand before all that it may stand
    /// before.
    proof fn lemma_transitive(a: &Self, b: &Self, c: &Self)
        requires
            a.le(b),
            b.le(c),
        ensures
            a.le(c),
    ;

    /// Computes `le`.
    fn no_later_than(&self, other: &Self) -> (r: bool)
        ensures
            r == self.le(other),
    ;
}

/// Whether the item at `i` has to stand before the item at `j`: its key is
/// strictly smaller, or the keys are equal and it was given first.
pub open spec fn precedes<T: Ranked>(items: Seq<T>, i: int, j: int) -> bool {
    !items[j].le(&items[i]) || (items[i].le(&items[j]) && i < j)
}

/// Whether `order` lists the positions of the first `n` items, each once, so
/// that every item stands before those it has to stand before.
pub open spec fn orders<T: Ranked>(items: Seq<T>, n: int, order: Seq<usize>) -> bool {
    &&& order.len() == n
    &&& forall|k: int| 0 <= k < order.len() ==> 0 <= #[trigger] order[k] < n
    &&& forall|a: int, b: int|
        0 <= a < b < order.len() ==> precedes(items, #[trigger] order[a] as int, #[trigger] order[b] as int)
    &&& forall|i: usize| 0 <= i < n ==> #[trigger] order.contains(i)
}

/// Whether `order` is the stable order of `items`.
pub open spec fn is_stable_order<T: Ranked>(items: Seq<T>, order: Seq<usize>) -> bool {
    orders(items, items.len() as int, order)
}

/// The items in the order that `order` gives.
pub open spec fn arranged<T>(items: Seq<T>, order: Seq<usize>) -> Seq<T> {
    Seq::new(order.len(), |k: int| items[order[k] as int])
}

/// Whether `sorted` holds the items of `items` in their stable order.
pub open spec fn is_stable_sort<T: Ranked>(items: Seq<T>, sorted: Seq<T>) -> bool {
    exists|order: Seq<usize>| #[trigger]
        is_stable_order(items, order) && sorted == arranged(items, order)
}

/// An item that has to stand before another may stand before it.
pub proof fn lemma_precedes_le<T: Ranked>(items: Seq<T>, i: int, j: int)
    requires
        precedes(items, i, j),
    ensures
        items[i].le(&items[j]),
{
    T::lemma_total(&items[i], &items[j]);
}

/// Placing the next item behind the last one that may stand before it keeps
/// the order.
proof fn lemma_insert<T: Ranked>(items: Seq<T>, order: Seq<usize>, n: usize, p: int)
    requires
        orders(items, n as int, order),
        n < items.len(),
        0 <= p <= n,
        forall|q: int| p <= q < n ==> !items[#[trigger] order[q] as int].le(&items[n as int]),
        p == 0 || items[order[p - 1] as int].le(&items[n as int]),
    ensures
        orders(items, n + 1, order.insert(p, n)),
{
    let next = order.insert(p, n);
    assert forall|a: int, b: int| 0 <= a < b < next.len() implies precedes(
        items,
        #[trigger] next[a] as int,
        #[trigger] next[b] as int,
    ) by {
        if a == p {
            assert(next[b] == order[b - 1]);
        } else if b == p {
            assert(next[a] == order[a]);
            if a < p - 1 {
                lemma_precedes_le(items, order[a] as int, order[p - 1] as int);
                T::lemma_transitive(
                    &items[order[a] as int],
                    &items[order[p - 1] as int],
                    &items[n as int],
                );
            }
        } else {
            let a0 = if a < p { a } else { a - 1 };
            let b0 = if b < p { b } else { b - 1 };
            assert(next[a] == order[a0]);
            assert(next[b] == order[b0]);
        }
    }
    assert forall|i: usize| 0 <= i < n + 1 implies #[trigger] next.contains(i) by {
        if i == n {
            assert(next[p] == i);
        } else {
            assert(order.contains(i));
            let k = choose|k: int| 0 <= k < order.len() && order[k] == i;
            if k < p {
                assert(next[k] == i);
            } else {
                assert(next[k + 1] == i);
            }
        }
    }
    assert forall|k: int| 0 <= k < next.len() implies 0 <= #[trigger] next[k] < n + 1 by {
        if k < p {
            assert(next[k] == order[k]);
        } else if k > p {
            assert(next[k] == order[k - 1]);
        }
    }
}

/// Two stable orders of one list agree on their first `k` places.
proof fn lemma_agree<T: Ranked>(items: Seq<T>, a: Seq<usize>, b: Seq<usize>, k: int)
    requires
        is_stable_order(items, a),
        is_stable_order(items, b),
        0 <= k <= items.len(),
    ensures
        forall|m: int| 0 <= m < k ==> a[m] == b[m],
    decreases k,
{
    if k > 0 {
        lemma_agree(items, a, b, k - 1);
        let j = k - 1;
        let x = a[j];
        let y = b[j];
        if x != y {
            T::lemma_total(&items[x as int], &items[x as int]);
            T::lemma_total(&items[y as int], &items[y as int]);
            T::lemma_total(&items[x as int], &items[y as int]);
            assert(b.contains(x));
            let m = choose|m: int| 0 <= m < b.len() && b[m] == x;
            assert(a.contains(y));
            let n = choose|n: int| 0 <= n < a.len() && a[n] == y;
            if m < j {
                assert(a[m] == b[m]);
                assert(precedes(items, a[m] as int, a[j] as int));
            } else if n < j {
                assert(a[n] == b[n]);
                assert(precedes(items, b[n] as int, b[j] as int));
            } else {
                assert(precedes(items, b[j] as int, b[m] as int));
                assert(precedes(items, a[j] as int, a[n] as int));
            }
        }
    }
}

/// A list has one stable order only.
pub proof fn lemma_stable_order_unique<T: Ranked>(items: Seq<T>, a: Seq<usize>, b: Seq<usize>)
    requires
        is_stable_order(items, a),
        is_stable_order(items, b),
    ensures
        a == b,
{
    lemma_agree(items, a, b, items.len() as int);
    assert(a =~= b);
}

/// In a stable order the keys never fall, and no position stands twice.
pub proof fn lemma_stable_order_sorted<T: Ranked>(items: Seq<T>, order: Seq<usize>, a: int, b: int)
    requires
        is_stable_order(items, order),
        0 <= a < b < order.len(),
    ensures
        items[order[a] as int].le(&items[order[b] as int]),
        order[a] != order[b],
{
    lemma_precedes_le(items, order[a] as int, order[b] as int);
    T::lemma_total(&items[order[a] as int], &items[order[a] as int]);
}

/// A list has one stable sort only.
pub proof fn lemma_stable_sort_unique<T: Ranked>(items: Seq<T>, a: Seq<T>, b: Seq<T>)
    requires
        is_stable_sort(items, a),
        is_stable_sort(items, b),
    ensures
        a == b,
{
    let x = choose|order: Seq<usize>| #[trigger]
        is_stable_order(items, order) && a == arranged(items, order);
    let y = choose|order: Seq<usize>| #[trigger]
        is_stable_order(items, order) && b == arranged(items, order);
    lemma_stable_order_unique(items, x, y);
}

/// In a stable sort the keys never fall, and nothing is lost or added.
pub proof fn lemma_stable_sort_sorted<T: Ranked>(items: Seq<T>, sorted: Seq<T>, a: int, b: int)
    requires
        is_stable_sort(items, sorted),
        0 <= a < b < sorted.len(),
    ensures
        sorted.len() == items.len(),
        sorted[a].le(&sorted[b]),
{
    let order = choose|order: Seq<usize>| #[trigger]
        is_stable_order(items, order) && sorted == arranged(items, order);
    lemma_stable_order_sorted(items, order, a, b);
}

/// The stable order of `items`: by key, and among equal keys by position.
pub fn stable_order<T: Ranked>(items: &Vec<T>) -> (order: Vec<usize>)
    ensures
        is_stable_order(items@, order@),
{
    let mut order: Vec<usize> = Vec::new();
    let mut i: usize = 0;
    while i < items.len()
        invariant
            i <= items.len(),
            orders(items@, i as int, order@),
        decreases items.len() - i,
    {
        let mut p: usize = order.len();
        while p > 0 && !items[order[p - 1]].no_later_than(&items[i])
            invariant
                p <= order.len() == i < items.len(),
                orders(items@, i as int, order@),
                forall|q: int|
                    p <= q < i ==> !items@[#[trigger] order@[q] as int].le(&items@[i as int]),
            decreases p,
        {
            p -= 1;
        }
        proof {
            lemma_insert(items@, order@, i, p as int);
        }
        order.insert(p, i);
        i += 1;
    }
    order
}

} // verus!
