//! The knapsack solver: table rows, the scan for the optimum, the traceback.

use crate::cell::{cell_add, cell_min, Cell};
use crate::input::Input;
use crate::item::{sort_by_ratio, sorted_by_ratio, Item};
use crate::knapsack::{
    best_upto, gain_bound, lemma_best_upto, lemma_empty_selection, lemma_min_size_bound,
    lemma_min_size_zero, lemma_prefix_monotone, lemma_selection_optimal, lemma_sorted_measures,
    lemma_trace, max_gain, min_size, optimal, optimal_gain, prefix_max_gain, prefix_size,
    selection, size_sum, solvable, total_gain, total_size, trace,
};
use vstd::prelude::*;

verus! {

/// What the solver found for one cache.
#[derive(Debug, PartialEq, Eq)]
pub struct Solution {
    /// One flag per item, in the items' sorted order: whether it is selected.
    pub best_items: Vec<bool>,
    /// Total gain of the selected items.
    pub latency_gain: u32,
    /// Total size of the selected items.
    pub video_size: u32,
}

/// `row` is the table's row for the first `k` items.
pub open spec fn row_holds(row: Seq<Cell>, items: Seq<Item>, k: nat) -> bool {
    &&& row.len() == gain_bound(items) + 1
    &&& forall|v: int| 0 <= v < row.len() ==> (#[trigger] row[v])@ == min_size(items, k, v)
}

/// `rows` are the table's rows for the first 1, 2, .. items, in that order.
pub open spec fn rows_hold(rows: Seq<Vec<Cell>>, items: Seq<Item>) -> bool {
    forall|j: int| 0 <= j < rows.len() ==> row_holds((#[trigger] rows[j])@, items, (j + 1) as nat)
}

/// The largest gain of a single item, 0 for no items.
pub fn largest_gain(items: &[Item]) -> (m: u16)
    ensures
        m == max_gain(items@),
{
    let mut m: u16 = 0;
    let mut i: usize = 0;
    while i < items.len()
        invariant
            i <= items.len(),
            m == prefix_max_gain(items@, i as nat),
        decreases items.len() - i,
    {
        if m < items[i].latency_gain {
            m = items[i].latency_gain;
        }
        i += 1;
    }
    m
}

/// Whether the solver's table for `items` fits the machine's counters.
pub fn can_solve(items: &[Item]) -> (ok: bool)
    ensures
        ok == solvable(items@),
{
    let n = items.len();
    let m = largest_gain(items);
    if n >= 0xffff_ffff {
        if m != 0 {
            assert(n * m >= u32::MAX) by (nonlinear_arith)
                requires
                    n >= 0xffff_ffff,
                    m >= 1,
            ;
            return false;
        }
        assert(n * m == 0) by (nonlinear_arith)
            requires
                m == 0,
        ;
    } else {
        assert(n * m <= 0xffff_ffff * 0xffff) by (nonlinear_arith)
            requires
                0 <= n <= 0xffff_ffff,
                0 <= m <= 0xffff,
        ;
        let width: u64 = n as u64 * m as u64;
        if width >= 0xffff_ffff {
            return false;
        }
    }
    let mut total: u64 = 0;
    let mut i: usize = 0;
    while i < n
        invariant
            i <= n,
            n == items.len(),
            total == prefix_size(items@, i as nat),
            total <= u32::MAX,
        decreases n - i,
    {
        total = total + items[i].video_size as u64;
        if total > 0xffff_ffff {
            proof {
                lemma_prefix_monotone(items@, (i + 1) as nat, n as nat);
            }
            return false;
        }
        i += 1;
    }
    true
}

/// The table's row for a single item: gain 0 costs nothing, the item's own
/// gain costs its size, and no other gain can be reached.
pub fn first_row(item: &Item, v_max: usize) -> (row: Vec<Cell>)
    requires
        v_max < usize::MAX,
    ensures
        row.len() == v_max + 1,
        forall|v: int|
            0 <= v <= v_max ==> (#[trigger] row[v])@ == if v == 0 {
                Some(0nat)
            } else if v == item.latency_gain {
                Some(item.video_size as nat)
            } else {
                None
            },
{
    let mut row: Vec<Cell> = Vec::with_capacity(v_max + 1);
    row.push(Cell::Feasible(0));
    let mut v: usize = 1;
    while v <= v_max
        invariant
            1 <= v <= v_max + 1,
            v_max < usize::MAX,
            row.len() == v,
            forall|x: int|
                0 <= x < v ==> (#[trigger] row[x])@ == if x == 0 {
                    Some(0nat)
                } else if x == item.latency_gain {
                    Some(item.video_size as nat)
                } else {
                    None
                },
        decreases v_max + 1 - v,
    {
        row.push(
            if v == item.latency_gain as usize {
                Cell::Feasible(item.video_size as u32)
            } else {
                Cell::Infeasible
            },
        );
        v += 1;
    }
    row
}

/// The table's next row: each gain costs the less of leaving `item` out and
/// of taking it on top of what the previous row reaches without its gain.
pub fn next_row(item: &Item, prev_row: &[Cell], v_max: usize) -> (row: Vec<Cell>)
    requires
        v_max < usize::MAX,
        prev_row.len() == v_max + 1,
        forall|v: int|
            0 <= v <= v_max ==> ((#[trigger] prev_row[v]) matches Cell::Feasible(w) ==> w
                + item.video_size <= u32::MAX),
    ensures
        row.len() == v_max + 1,
        forall|v: int|
            0 <= v <= v_max ==> (#[trigger] row[v])@ == if item.latency_gain <= v {
                cell_min(
                    prev_row[v]@,
                    cell_add(prev_row[v - item.latency_gain]@, item.video_size as nat),
                )
            } else {
                prev_row[v]@
            },
{
    let u = item.latency_gain as usize;
    let mut row: Vec<Cell> = Vec::with_capacity(v_max + 1);
    let mut v: usize = 0;
    while v <= v_max
        invariant
            v <= v_max + 1,
            v_max < usize::MAX,
            u == item.latency_gain,
            prev_row.len() == v_max + 1,
            row.len() == v,
            forall|x: int|
                0 <= x <= v_max ==> ((#[trigger] prev_row[x]) matches Cell::Feasible(w) ==> w
                    + item.video_size <= u32::MAX),
            forall|x: int|
                0 <= x < v ==> (#[trigger] row[x])@ == if item.latency_gain <= x {
                    cell_min(
                        prev_row[x]@,
                        cell_add(prev_row[x - item.latency_gain]@, item.video_size as nat),
                    )
                } else {
                    prev_row[x]@
                },
        decreases v_max + 1 - v,
    {
        row.push(
            if u <= v {
                let with = prev_row[v - u].add(item.video_size as u32);
                prev_row[v].min(with)
            } else {
                prev_row[v]
            },
        );
        v += 1;
    }
    row
}

/// Recovers the selection from the table.
///
/// `rows` holds the rows for the first 1, 2, .. items, up to all but the last
/// item; `w` is the cell of the full table at gain `v`. Walking back from the
/// last item, an item is taken exactly where the row before it holds another
/// cell, and the walk then goes on at the gain without the item.
pub fn traceback(v: u32, w: Cell, rows: Vec<Vec<Cell>>, items: &[Item]) -> (chosen: Vec<bool>)
    requires
        rows.len() + 1 == items.len(),
        rows_hold(rows@, items@),
        v <= gain_bound(items@),
        w is Feasible,
        w@ == min_size(items@, items@.len(), v as int),
    ensures
        chosen@ == trace(items@, items@.len(), v as int),
{
    let n = items.len();
    let mut chosen: Vec<bool> = vec![false; n];
    let mut v = v;
    let mut w = w;
    let mut k: usize = n - 1;
    let ghost target = trace(items@, items@.len(), v as int);
    proof {
        lemma_trace(items@, n as nat, v as int);
    }
    while k > 0
        invariant
            k < n,
            n == items.len(),
            rows.len() + 1 == n,
            rows_hold(rows@, items@),
            v <= gain_bound(items@),
            w is Feasible,
            w@ == min_size(items@, (k + 1) as nat, v as int),
            chosen.len() == n,
            target.len() == n,
            forall|i: int| k < i < n ==> chosen[i] == target[i],
            forall|i: int| 0 <= i <= k ==> !chosen[i],
            trace(items@, (k + 1) as nat, v as int) == target.take(k + 1),
        decreases k,
    {
        let row = &rows[k - 1];
        assert(row_holds(rows@[k - 1]@, items@, k as nat));
        let cell = row[v as usize];
        let ghost here = trace(items@, (k + 1) as nat, v as int);
        proof {
            lemma_trace(items@, (k + 1) as nat, v as int);
            assert(cell@ == min_size(items@, k as nat, v as int));
            assert(w == cell <==> w@ == cell@);
            assert(target[k as int] == here[k as int]);
        }
        if w == cell {
            proof {
                lemma_trace(items@, k as nat, v as int);
                assert(trace(items@, k as nat, v as int) =~= here.take(k as int));
            }
        } else {
            chosen.set(k, true);
            proof {
                let u = v - items@[k as int].latency_gain;
                lemma_trace(items@, k as nat, u);
                assert(trace(items@, k as nat, u) =~= here.take(k as int));
            }
            v = v - items[k].latency_gain as u32;
            w = row[v as usize];
        }
        assert(here.take(k as int) =~= target.take(k as int));
        k -= 1;
    }
    proof {
        let here = trace(items@, 1, v as int);
        lemma_trace(items@, 1, v as int);
        lemma_min_size_zero(items@, 1);
        assert(target[0] == here[0]);
        assert(min_size(items@, 0, v as int) == if v == 0 {
            Some(0nat)
        } else {
            None
        });
    }
    if v != 0 {
        chosen.set(0, true);
    }
    assert(chosen@ =~= target);
    chosen
}

/// Finds the largest gain whose least size fits the capacity, and the
/// selection that reaches it.
pub fn extract_result(rows: Vec<Vec<Cell>>, items: &[Item], input: &Input) -> (found: Solution)
    requires
        items.len() >= 1,
        rows.len() == items.len(),
        rows_hold(rows@, items@),
        gain_bound(items@) < u32::MAX,
    ensures
        found.best_items@ == selection(items@, input.cache_capacity as nat),
        found.latency_gain == optimal_gain(items@, input.cache_capacity as nat),
        Some(found.video_size as nat) == min_size(
            items@,
            items@.len(),
            optimal_gain(items@, input.cache_capacity as nat) as int,
        ),
{
    let mut rows = rows;
    let ghost all_rows = rows@;
    let last_row = rows.pop().unwrap();
    let ghost n = items@.len();
    let ghost capacity = input.cache_capacity as nat;
    assert(row_holds(all_rows[n - 1]@, items@, n));
    assert(rows_hold(rows@, items@)) by {
        assert forall|j: int| 0 <= j < rows@.len() implies row_holds(
            (#[trigger] rows@[j])@,
            items@,
            (j + 1) as nat,
        ) by {
            assert(rows@[j] == all_rows[j]);
        }
    }
    proof {
        lemma_min_size_zero(items@, n);
    }
    let mut optimum_v: u32 = 0;
    let mut optimum_w: u32 = 0;
    let mut v: usize = 0;
    while v < last_row.len()
        invariant
            v <= last_row.len(),
            row_holds(last_row@, items@, n),
            n == items@.len(),
            capacity == input.cache_capacity,
            gain_bound(items@) < u32::MAX,
            min_size(items@, n, 0) == Some(0nat),
            v == 0 ==> optimum_v == 0 && optimum_w == 0,
            v > 0 ==> optimum_v == best_upto(items@, capacity, (v - 1) as nat),
            Some(optimum_w as nat) == min_size(items@, n, optimum_v as int),
        decreases last_row.len() - v,
    {
        if let Cell::Feasible(w) = last_row[v] {
            if w <= input.cache_capacity {
                optimum_v = v as u32;
                optimum_w = w;
            }
        }
        v += 1;
    }
    proof {
        lemma_best_upto(items@, capacity, gain_bound(items@));
    }
    Solution {
        best_items: traceback(optimum_v, Cell::Feasible(optimum_w), rows, items),
        latency_gain: optimum_v,
        video_size: optimum_w,
    }
}

/// Selects, among the candidate items of one cache, a set of largest total
/// gain whose total size fits `input.cache_capacity`.
///
/// The items are first sorted in ascending order of gain per size; the flags
/// of the result follow that order.
pub fn solve_backpack(items: &mut Vec<Item>, input: &Input) -> (found: Solution)
    requires
        solvable(old(items)@),
    ensures
        final(items)@ == sorted_by_ratio(old(items)@),
        found.best_items@ == selection(final(items)@, input.cache_capacity as nat),
        found.best_items@.len() == old(items)@.len(),
        total_size(final(items)@, found.best_items@) <= input.cache_capacity,
        optimal(final(items)@, found.best_items@, input.cache_capacity as nat),
        found.latency_gain == total_gain(final(items)@, found.best_items@),
        found.video_size == total_size(final(items)@, found.best_items@),
        found.latency_gain == optimal_gain(final(items)@, input.cache_capacity as nat),
        old(items)@.len() == 0 ==> found.best_items@.len() == 0 && found.latency_gain == 0
            && found.video_size == 0,
{
    sort_by_ratio(items);
    proof {
        lemma_sorted_measures(old(items)@);
        lemma_selection_optimal(items@, input.cache_capacity as nat);
    }
    let n = items.len();
    let gain = largest_gain(items.as_slice());
    assert(n * gain == gain_bound(items@));
    if n == 0 {
        proof {
            lemma_empty_selection(input.cache_capacity as nat);
            assert(items@ =~= Seq::<Item>::empty());
        }
        return Solution { best_items: Vec::new(), latency_gain: 0, video_size: 0 };
    }
    let v_max: usize = n * gain as usize;
    let mut rows: Vec<Vec<Cell>> = Vec::with_capacity(n);
    let first = first_row(&items[0], v_max);
    proof {
        assert forall|v: int| 0 <= v < first@.len() implies (#[trigger] first@[v])@ == min_size(
            items@,
            1,
            v,
        ) by {
            reveal_with_fuel(min_size, 2);
        }
    }
    rows.push(first);
    let mut i: usize = 1;
    while i < n
        invariant
            1 <= i <= n,
            n == items.len(),
            v_max == gain_bound(items@),
            v_max < u32::MAX,
            size_sum(items@) <= u32::MAX,
            rows.len() == i,
            rows_hold(rows@, items@),
        decreases n - i,
    {
        let prev = &rows[i - 1];
        assert(row_holds(rows@[i - 1]@, items@, i as nat));
        proof {
            assert forall|v: int| 0 <= v <= v_max implies ((#[trigger] prev@[v]) matches Cell::Feasible(
                w,
            ) ==> w + items@[i as int].video_size <= u32::MAX) by {
                if prev@[v] is Feasible {
                    lemma_min_size_bound(items@, i as nat, v);
                    lemma_prefix_monotone(items@, i as nat, n as nat);
                }
            }
        }
        let next = next_row(&items[i], prev.as_slice(), v_max);
        assert(row_holds(next@, items@, (i + 1) as nat));
        let ghost before = rows@;
        rows.push(next);
        assert(rows_hold(rows@, items@)) by {
            assert forall|j: int| 0 <= j < rows@.len() implies row_holds(
                (#[trigger] rows@[j])@,
                items@,
                (j + 1) as nat,
            ) by {
                if j < i {
                    assert(rows@[j] == before[j]);
                }
            }
        }
        i += 1;
    }
    extract_result(rows, items.as_slice(), input)
}

} // verus!
