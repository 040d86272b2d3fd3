//! What an optimal selection is, and how the table of least sizes finds one.
//!
//! A selection over `items` is a sequence of flags, one per item. The table
//! holds, for every prefix of the items and every total gain, the least total
//! size of a selection within the prefix that reaches exactly that gain.

use crate::cell::{cell_add, cell_min};
use crate::item::{insert_by_ratio, ratio_le, sorted_by_ratio, Item};
use vstd::prelude::*;

verus! {

/// Total gain of the chosen items among the first `k`.
pub open spec fn chosen_gain(items: Seq<Item>, chosen: Seq<bool>, k: nat) -> nat
    decreases k,
{
    if k == 0 {
        0
    } else {
        let rest = chosen_gain(items, chosen, (k - 1) as nat);
        if chosen[k - 1] {
            rest + items[k - 1].latency_gain as nat
        } else {
            rest
        }
    }
}

/// Total size of the chosen items among the first `k`.
pub open spec fn chosen_size(items: Seq<Item>, chosen: Seq<bool>, k: nat) -> nat
    decreases k,
{
    if k == 0 {
        0
    } else {
        let rest = chosen_size(items, chosen, (k - 1) as nat);
        if chosen[k - 1] {
            rest + items[k - 1].video_size as nat
        } else {
            rest
        }
    }
}

/// Total gain of a selection.
pub open spec fn total_gain(items: Seq<Item>, chosen: Seq<bool>) -> nat {
    chosen_gain(items, chosen, items.len())
}

/// Total size of a selection.
pub open spec fn total_size(items: Seq<Item>, chosen: Seq<bool>) -> nat {
    chosen_size(items, chosen, items.len())
}

/// `chosen` has one flag per item and fits the capacity.
pub open spec fn feasible(items: Seq<Item>, chosen: Seq<bool>, capacity: nat) -> bool {
    chosen.len() == items.len() && total_size(items, chosen) <= capacity
}

/// `chosen` fits the capacity and no selection that fits gains more.
pub open spec fn optimal(items: Seq<Item>, chosen: Seq<bool>, capacity: nat) -> bool {
    &&& feasible(items, chosen, capacity)
    &&& forall|other: Seq<bool>| #[trigger]
        feasible(items, other, capacity) ==> total_gain(items, other) <= total_gain(
            items,
            chosen,
        )
}

/// Total size of the first `k` items.
pub open spec fn prefix_size(items: Seq<Item>, k: nat) -> nat
    decreases k,
{
    if k == 0 {
        0
    } else {
        prefix_size(items, (k - 1) as nat) + items[k - 1].video_size as nat
    }
}

/// Largest gain among the first `k` items, 0 if there is none.
pub open spec fn prefix_max_gain(items: Seq<Item>, k: nat) -> nat
    decreases k,
{
    if k == 0 {
        0
    } else {
        let rest = prefix_max_gain(items, (k - 1) as nat);
        let last = items[k - 1].latency_gain as nat;
        if rest < last {
            last
        } else {
            rest
        }
    }
}

/// Total size of all items.
pub open spec fn size_sum(items: Seq<Item>) -> nat {
    prefix_size(items, items.len())
}

/// Largest gain of a single item.
pub open spec fn max_gain(items: Seq<Item>) -> nat {
    prefix_max_gain(items, items.len())
}

/// A gain that no selection exceeds: the width of the table.
pub open spec fn gain_bound(items: Seq<Item>) -> nat {
    items.len() * max_gain(items)
}

/// The table and its sizes fit the machine's 32-bit counters.
pub open spec fn solvable(items: Seq<Item>) -> bool {
    gain_bound(items) < u32::MAX && size_sum(items) <= u32::MAX
}

/// Least total size of a selection among the first `k` items whose total gain
/// is exactly `v`; `None` if no selection has that gain.
pub open spec fn min_size(items: Seq<Item>, k: nat, v: int) -> Option<nat>
    decreases k,
{
    if k == 0 {
        if v == 0 {
            Some(0nat)
        } else {
            None
        }
    } else {
        let item = items[k - 1];
        let without = min_size(items, (k - 1) as nat, v);
        if item.latency_gain <= v {
            cell_min(
                without,
                cell_add(
                    min_size(items, (k - 1) as nat, v - item.latency_gain),
                    item.video_size as nat,
                ),
            )
        } else {
            without
        }
    }
}

/// Some selection of gain exactly `v` fits the capacity.
pub open spec fn fits(items: Seq<Item>, capacity: nat, v: int) -> bool {
    match min_size(items, items.len(), v) {
        Some(w) => w <= capacity,
        None => false,
    }
}

/// Largest gain up to `top` that fits the capacity.
pub open spec fn best_upto(items: Seq<Item>, capacity: nat, top: nat) -> nat
    decreases top,
{
    if top == 0 {
        0
    } else if fits(items, capacity, top as int) {
        top
    } else {
        best_upto(items, capacity, (top - 1) as nat)
    }
}

/// Largest total gain of a selection that fits the capacity.
pub open spec fn optimal_gain(items: Seq<Item>, capacity: nat) -> nat {
    best_upto(items, capacity, gain_bound(items))
}

/// The selection among the first `k` items that the table points to for gain
/// `v`: an item is taken exactly where it lowered the least size.
pub open spec fn trace(items: Seq<Item>, k: nat, v: int) -> Seq<bool>
    decreases k,
{
    if k == 0 {
        Seq::empty()
    } else if min_size(items, k, v) == min_size(items, (k - 1) as nat, v) {
        trace(items, (k - 1) as nat, v).push(false)
    } else {
        trace(items, (k - 1) as nat, v - items[k - 1].latency_gain).push(true)
    }
}

/// The optimal selection that the solver returns.
pub open spec fn selection(items: Seq<Item>, capacity: nat) -> Seq<bool> {
    trace(items, items.len(), optimal_gain(items, capacity) as int)
}

/// Gain and size of a selection depend on its first `k` flags only.
pub proof fn lemma_chosen_agree(items: Seq<Item>, a: Seq<bool>, b: Seq<bool>, k: nat)
    requires
        forall|i: int| 0 <= i < k ==> a[i] == b[i],
    ensures
        chosen_gain(items, a, k) == chosen_gain(items, b, k),
        chosen_size(items, a, k) == chosen_size(items, b, k),
    decreases k,
{
    if k > 0 {
        lemma_chosen_agree(items, a, b, (k - 1) as nat);
    }
}

/// Size and largest gain of a prefix depend on its items only.
pub proof fn lemma_prefix_agree(a: Seq<Item>, b: Seq<Item>, k: nat)
    requires
        forall|i: int| 0 <= i < k ==> a[i] == b[i],
    ensures
        prefix_size(a, k) == prefix_size(b, k),
        prefix_max_gain(a, k) == prefix_max_gain(b, k),
    decreases k,
{
    if k > 0 {
        lemma_prefix_agree(a, b, (k - 1) as nat);
    }
}

/// Longer prefixes are larger, and no item gains more than the largest gain.
pub proof fn lemma_prefix_monotone(items: Seq<Item>, j: nat, k: nat)
    requires
        j <= k,
    ensures
        prefix_size(items, j) <= prefix_size(items, k),
        prefix_max_gain(items, j) <= prefix_max_gain(items, k),
        j < k ==> items[j as int].latency_gain <= prefix_max_gain(items, k),
        j < k ==> prefix_size(items, j) + items[j as int].video_size <= prefix_size(items, k),
    decreases k,
{
    if j < k {
        lemma_prefix_monotone(items, j, (k - 1) as nat);
    }
}

/// No selection is larger than all the items together.
pub proof fn lemma_chosen_size_bound(items: Seq<Item>, chosen: Seq<bool>, k: nat)
    ensures
        chosen_size(items, chosen, k) <= prefix_size(items, k),
    decreases k,
{
    if k > 0 {
        lemma_chosen_size_bound(items, chosen, (k - 1) as nat);
    }
}

/// No selection among the first `k` items gains more than `k` times a bound
/// on their gains.
pub proof fn lemma_chosen_gain_bound(items: Seq<Item>, chosen: Seq<bool>, k: nat, bound: nat)
    requires
        forall|i: int| 0 <= i < k ==> (#[trigger] items[i]).latency_gain <= bound,
    ensures
        chosen_gain(items, chosen, k) <= k * bound,
    decreases k,
{
    if k > 0 {
        lemma_chosen_gain_bound(items, chosen, (k - 1) as nat, bound);
        assert((k - 1) * bound + bound == k * bound) by (nonlinear_arith);
    }
}

/// The empty selection reaches gain 0 at size 0.
pub proof fn lemma_min_size_zero(items: Seq<Item>, k: nat)
    ensures
        min_size(items, k, 0) == Some(0nat),
    decreases k,
{
    if k > 0 {
        lemma_min_size_zero(items, (k - 1) as nat);
    }
}

/// The traced selection reaches the gain at the least size.
pub proof fn lemma_trace(items: Seq<Item>, k: nat, v: int)
    requires
        min_size(items, k, v) is Some,
    ensures
        trace(items, k, v).len() == k,
        chosen_gain(items, trace(items, k, v), k) == v,
        Some(chosen_size(items, trace(items, k, v), k)) == min_size(items, k, v),
    decreases k,
{
    if k > 0 {
        let j = (k - 1) as nat;
        let t = trace(items, k, v);
        if min_size(items, k, v) == min_size(items, j, v) {
            lemma_trace(items, j, v);
            lemma_chosen_agree(items, t, trace(items, j, v), j);
        } else {
            let u = v - items[k - 1].latency_gain;
            assert(min_size(items, j, u) is Some);
            lemma_trace(items, j, u);
            lemma_chosen_agree(items, t, trace(items, j, u), j);
        }
    }
}

/// A feasible cell holds a size that the first `k` items can have, at a gain
/// that is not negative.
pub proof fn lemma_min_size_bound(items: Seq<Item>, k: nat, v: int)
    requires
        min_size(items, k, v) is Some,
    ensures
        0 <= v,
        min_size(items, k, v)->Some_0 <= prefix_size(items, k),
{
    lemma_trace(items, k, v);
    lemma_chosen_size_bound(items, trace(items, k, v), k);
}

/// No selection reaches its gain at less than the least size.
pub proof fn lemma_min_size_least(items: Seq<Item>, chosen: Seq<bool>, k: nat)
    ensures
        min_size(items, k, chosen_gain(items, chosen, k) as int) is Some,
        min_size(items, k, chosen_gain(items, chosen, k) as int)->Some_0 <= chosen_size(
            items,
            chosen,
            k,
        ),
    decreases k,
{
    if k > 0 {
        lemma_min_size_least(items, chosen, (k - 1) as nat);
    }
}

/// The scan stops at a gain that fits, and no larger gain up to `top` fits.
pub proof fn lemma_best_upto(items: Seq<Item>, capacity: nat, top: nat)
    ensures
        best_upto(items, capacity, top) <= top,
        fits(items, capacity, best_upto(items, capacity, top) as int),
        forall|v: int|
            best_upto(items, capacity, top) < v <= top ==> !#[trigger] fits(items, capacity, v),
    decreases top,
{
    if top == 0 {
        lemma_min_size_zero(items, items.len());
    } else if !fits(items, capacity, top as int) {
        lemma_best_upto(items, capacity, (top - 1) as nat);
    }
}

/// The selection that the solver returns fits the capacity, gains
/// `optimal_gain`, and no selection that fits gains more.
pub proof fn lemma_selection_optimal(items: Seq<Item>, capacity: nat)
    ensures
        optimal(items, selection(items, capacity), capacity),
        total_gain(items, selection(items, capacity)) == optimal_gain(items, capacity),
        Some(total_size(items, selection(items, capacity))) == min_size(
            items,
            items.len(),
            optimal_gain(items, capacity) as int,
        ),
{
    let n = items.len();
    let g = optimal_gain(items, capacity);
    let top = gain_bound(items);
    lemma_best_upto(items, capacity, top);
    lemma_trace(items, n, g as int);
    assert forall|other: Seq<bool>| #[trigger]
        feasible(items, other, capacity) implies total_gain(items, other) <= g by {
        let v = total_gain(items, other);
        assert forall|i: int| 0 <= i < n implies (#[trigger] items[i]).latency_gain <= max_gain(
            items,
        ) by {
            lemma_prefix_monotone(items, i as nat, n);
        }
        lemma_chosen_gain_bound(items, other, n, max_gain(items));
        lemma_min_size_least(items, other, n);
        assert(fits(items, capacity, v as int));
    }
}

/// A larger capacity never lowers the optimal gain.
pub proof fn lemma_capacity_monotone(items: Seq<Item>, smaller: nat, larger: nat)
    requires
        smaller <= larger,
    ensures
        optimal_gain(items, smaller) <= optimal_gain(items, larger),
{
    let top = gain_bound(items);
    lemma_best_upto(items, smaller, top);
    lemma_best_upto(items, larger, top);
    assert(fits(items, larger, optimal_gain(items, smaller) as int));
}

/// With no items the selection is empty and gains nothing at size 0.
pub proof fn lemma_empty_selection(capacity: nat)
    ensures
        selection(Seq::<Item>::empty(), capacity) == Seq::<bool>::empty(),
        optimal_gain(Seq::<Item>::empty(), capacity) == 0,
        total_size(Seq::<Item>::empty(), selection(Seq::<Item>::empty(), capacity)) == 0,
{
    let items = Seq::<Item>::empty();
    assert(gain_bound(items) == 0) by (nonlinear_arith)
        requires
            gain_bound(items) == 0 * max_gain(items),
    ;
}

/// Inserting an item adds its size and can only raise the largest gain to
/// its own.
pub proof fn lemma_insert_measures(s: Seq<Item>, x: Item)
    ensures
        size_sum(insert_by_ratio(s, x)) == size_sum(s) + x.video_size,
        max_gain(insert_by_ratio(s, x)) == if max_gain(s) < x.latency_gain {
            x.latency_gain as nat
        } else {
            max_gain(s)
        },
        insert_by_ratio(s, x).len() == s.len() + 1,
    decreases s.len(),
{
    let r = insert_by_ratio(s, x);
    let n = s.len();
    if n == 0 {
        assert(prefix_max_gain(r, 0) == 0);
        assert(prefix_size(r, 0) == 0);
    } else if ratio_le(s.last(), x) {
        lemma_prefix_agree(r, s, n);
        assert(r[n as int] == x);
    } else {
        let q = s.drop_last();
        let t = insert_by_ratio(q, x);
        lemma_insert_measures(q, x);
        lemma_prefix_agree(r, t, n);
        lemma_prefix_agree(s, q, (n - 1) as nat);
        assert(r[n as int] == s[n - 1]);
        assert(max_gain(r) == prefix_max_gain(r, n + 1));
        assert(max_gain(s) == prefix_max_gain(s, n));
    }
}

/// Sorting changes neither the total size nor the largest gain, so it keeps
/// an instance solvable.
pub proof fn lemma_sorted_measures(s: Seq<Item>)
    ensures
        sorted_by_ratio(s).len() == s.len(),
        size_sum(sorted_by_ratio(s)) == size_sum(s),
        max_gain(sorted_by_ratio(s)) == max_gain(s),
        solvable(sorted_by_ratio(s)) == solvable(s),
    decreases s.len(),
{
    if s.len() > 0 {
        let q = s.drop_last();
        lemma_sorted_measures(q);
        lemma_insert_measures(sorted_by_ratio(q), s.last());
        lemma_prefix_agree(s, q, q.len());
    }
}

} // verus!
