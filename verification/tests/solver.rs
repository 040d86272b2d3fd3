use hashcode2017::cell::Cell;
use hashcode2017::item::{sort_by_ratio, Item};
use hashcode2017::solver::{can_solve, first_row, largest_gain, next_row, solve_backpack, Solution};
use hashcode2017::Input;

fn item(request_id: u32, latency_gain: u16, video_size: u16) -> Item {
    Item { request_id, latency_gain, video_size }
}

fn capacity(cache_capacity: u32) -> Input {
    Input {
        cache_count: 1,
        cache_capacity,
        video_sizes: Vec::new(),
        endpoints: Vec::new(),
        requests: Vec::new(),
    }
}

fn solve(items: &[Item], cache_capacity: u32) -> (Vec<Item>, Solution) {
    let mut sorted = items.to_vec();
    let found = solve_backpack(&mut sorted, &capacity(cache_capacity));
    (sorted, found)
}

/// Largest gain over all subsets that fit, by enumeration.
fn brute_force(items: &[Item], cache_capacity: u32) -> u32 {
    let mut best = 0;
    for mask in 0u32..(1 << items.len()) {
        let mut gain = 0;
        let mut size = 0;
        for (i, it) in items.iter().enumerate() {
            if mask & (1 << i) != 0 {
                gain += it.latency_gain as u32;
                size += it.video_size as u32;
            }
        }
        if size <= cache_capacity && gain > best {
            best = gain;
        }
    }
    best
}

fn totals(items: &[Item], chosen: &[bool]) -> (u32, u32) {
    let mut gain = 0;
    let mut size = 0;
    for (it, &c) in items.iter().zip(chosen.iter()) {
        if c {
            gain += it.latency_gain as u32;
            size += it.video_size as u32;
        }
    }
    (gain, size)
}

#[test]
fn cell_add_keeps_infeasible() {
    assert_eq!(Cell::Infeasible.add(7), Cell::Infeasible);
    assert_eq!(Cell::Feasible(5).add(7), Cell::Feasible(12));
    assert_eq!(Cell::Feasible(0).add(0), Cell::Feasible(0));
}

#[test]
fn cell_min_treats_infeasible_as_infinite() {
    assert_eq!(Cell::Infeasible.min(Cell::Infeasible), Cell::Infeasible);
    assert_eq!(Cell::Infeasible.min(Cell::Feasible(9)), Cell::Feasible(9));
    assert_eq!(Cell::Feasible(9).min(Cell::Infeasible), Cell::Feasible(9));
    assert_eq!(Cell::Feasible(9).min(Cell::Feasible(4)), Cell::Feasible(4));
    assert_eq!(Cell::Feasible(4).min(Cell::Feasible(9)), Cell::Feasible(4));
}

#[test]
fn ratio_order_is_exact() {
    // 1/3 < 2/5
    assert!(item(0, 1, 3).ratio_le(&item(1, 2, 5)));
    assert!(!item(1, 2, 5).ratio_le(&item(0, 1, 3)));
    // 2/4 == 1/2
    assert!(item(0, 2, 4).ratio_le(&item(1, 1, 2)));
    assert!(item(1, 1, 2).ratio_le(&item(0, 2, 4)));
    // ratios that 32-bit floats cannot tell apart
    assert!(item(0, 65534, 65535).ratio_le(&item(1, 65533, 65534)) == false);
    assert!(item(1, 65533, 65534).ratio_le(&item(0, 65534, 65535)));
}

#[test]
fn items_of_size_zero_rank_last() {
    assert!(item(0, 65535, 1).ratio_le(&item(1, 0, 0)));
    assert!(!item(1, 0, 0).ratio_le(&item(0, 65535, 1)));
    assert!(item(0, 3, 0).ratio_le(&item(1, 9, 0)));
    assert!(item(1, 9, 0).ratio_le(&item(0, 3, 0)));
}

#[test]
fn sort_is_ascending_and_stable() {
    let mut items = vec![
        item(0, 4, 2),
        item(1, 3, 4),
        item(2, 5, 5),
        item(3, 1, 0),
        item(4, 2, 1),
        item(5, 10, 10),
    ];
    sort_by_ratio(&mut items);
    assert_eq!(
        items,
        vec![
            item(1, 3, 4),
            item(2, 5, 5),
            item(5, 10, 10),
            item(0, 4, 2),
            item(4, 2, 1),
            item(3, 1, 0),
        ]
    );
}

#[test]
fn sort_of_nothing_and_of_one() {
    let mut none: Vec<Item> = Vec::new();
    sort_by_ratio(&mut none);
    assert!(none.is_empty());
    let mut one = vec![item(7, 1, 1)];
    sort_by_ratio(&mut one);
    assert_eq!(one, vec![item(7, 1, 1)]);
}

#[test]
fn largest_gain_of_items() {
    assert_eq!(largest_gain(&[]), 0);
    assert_eq!(largest_gain(&[item(0, 3, 1), item(1, 9, 1), item(2, 4, 1)]), 9);
}

#[test]
fn first_row_holds_zero_and_the_item() {
    let row = first_row(&item(0, 2, 7), 4);
    assert_eq!(
        row,
        vec![
            Cell::Feasible(0),
            Cell::Infeasible,
            Cell::Feasible(7),
            Cell::Infeasible,
            Cell::Infeasible,
        ]
    );
}

#[test]
fn first_row_of_an_item_without_gain() {
    assert_eq!(first_row(&item(0, 0, 5), 0), vec![Cell::Feasible(0)]);
    assert_eq!(first_row(&item(0, 0, 5), 1), vec![Cell::Feasible(0), Cell::Infeasible]);
}

#[test]
fn next_row_takes_the_cheaper_way() {
    let prev = first_row(&item(0, 2, 7), 4);
    let row = next_row(&item(1, 1, 3), &prev, 4);
    assert_eq!(
        row,
        vec![
            Cell::Feasible(0),
            Cell::Feasible(3),
            Cell::Feasible(7),
            Cell::Feasible(10),
            Cell::Infeasible,
        ]
    );
    // the same gain at a smaller size replaces the cell
    let row = next_row(&item(2, 2, 4), &prev, 4);
    assert_eq!(
        row,
        vec![
            Cell::Feasible(0),
            Cell::Infeasible,
            Cell::Feasible(4),
            Cell::Infeasible,
            Cell::Feasible(11),
        ]
    );
}

#[test]
fn three_items_match_brute_force() {
    let items = [item(0, 3, 4), item(1, 5, 5), item(2, 4, 2)];
    let (sorted, found) = solve(&items, 6);
    assert_eq!(found.latency_gain, brute_force(&items, 6));
    assert_eq!(found.latency_gain, 7);
    assert_eq!(found.video_size, 6);
    assert_eq!(sorted, items.to_vec());
    assert_eq!(found.best_items, vec![true, false, true]);
    assert_eq!(totals(&sorted, &found.best_items), (7, 6));
}

#[test]
fn capacity_too_small_for_the_only_item() {
    let (_, found) = solve(&[item(0, 10, 1)], 0);
    assert_eq!(found.best_items, vec![false]);
    assert_eq!(found.latency_gain, 0);
    assert_eq!(found.video_size, 0);
}

#[test]
fn single_item_that_fits() {
    let (_, found) = solve(&[item(0, 10, 1)], 1);
    assert_eq!(found.best_items, vec![true]);
    assert_eq!(found.latency_gain, 10);
    assert_eq!(found.video_size, 1);
}

#[test]
fn no_items_give_an_empty_selection() {
    for cap in [0, 1, 1000, u32::MAX] {
        let (sorted, found) = solve(&[], cap);
        assert!(sorted.is_empty());
        assert_eq!(found, Solution { best_items: Vec::new(), latency_gain: 0, video_size: 0 });
    }
}

#[test]
fn selection_fits_and_is_optimal_on_small_instances() {
    let pool = [
        item(0, 6, 3),
        item(1, 1, 9),
        item(2, 7, 7),
        item(3, 0, 2),
        item(4, 4, 0),
        item(5, 9, 12),
        item(6, 3, 3),
        item(7, 5, 1),
        item(8, 2, 8),
        item(9, 8, 5),
    ];
    for n in 0..=pool.len() {
        for cap in [0u32, 1, 4, 9, 15, 22, 60] {
            let (sorted, found) = solve(&pool[..n], cap);
            assert_eq!(found.best_items.len(), n);
            let (gain, size) = totals(&sorted, &found.best_items);
            assert!(size <= cap);
            assert_eq!(gain, found.latency_gain);
            assert_eq!(size, found.video_size);
            assert_eq!(gain, brute_force(&pool[..n], cap));
        }
    }
}

#[test]
fn same_input_gives_the_same_selection() {
    let items = [item(0, 5, 3), item(1, 5, 3), item(2, 2, 1), item(3, 2, 1), item(4, 7, 4)];
    let (first_sorted, first) = solve(&items, 7);
    let (second_sorted, second) = solve(&items, 7);
    assert_eq!(first_sorted, second_sorted);
    assert_eq!(first, second);
}

#[test]
fn of_two_equal_items_the_earlier_is_taken() {
    let (sorted, found) = solve(&[item(0, 5, 3), item(1, 5, 3)], 3);
    assert_eq!(sorted, vec![item(0, 5, 3), item(1, 5, 3)]);
    assert_eq!(found.best_items, vec![true, false]);
    assert_eq!(found.latency_gain, 5);
    assert_eq!(found.video_size, 3);
}

#[test]
fn larger_capacity_never_lowers_the_gain() {
    let items = [item(0, 3, 4), item(1, 5, 5), item(2, 4, 2), item(3, 9, 8)];
    let mut last = 0;
    for cap in 0..=20 {
        let (_, found) = solve(&items, cap);
        assert!(found.latency_gain >= last);
        last = found.latency_gain;
    }
    assert_eq!(last, 21);
}

#[test]
fn items_without_gain_are_left_out() {
    let (sorted, found) = solve(&[item(0, 0, 1), item(1, 0, 0), item(2, 3, 2)], 10);
    assert_eq!(sorted, vec![item(0, 0, 1), item(2, 3, 2), item(1, 0, 0)]);
    assert_eq!(found.best_items, vec![false, true, false]);
    assert_eq!(found.latency_gain, 3);
    assert_eq!(found.video_size, 2);
}

#[test]
fn solver_sorts_before_it_selects() {
    let (sorted, found) = solve(&[item(0, 4, 2), item(1, 3, 4), item(2, 5, 5)], 6);
    assert_eq!(sorted, vec![item(1, 3, 4), item(2, 5, 5), item(0, 4, 2)]);
    assert_eq!(found.best_items, vec![true, false, true]);
    assert_eq!(found.latency_gain, 7);
}

#[test]
fn can_solve_small_instances() {
    assert!(can_solve(&[]));
    assert!(can_solve(&[item(0, 65535, 65535)]));
    assert!(can_solve(&vec![item(0, 0, 1); 70000]));
}

#[test]
fn cannot_solve_when_the_table_is_too_wide() {
    // 65537 * 65535 == u32::MAX, which is not below it
    let items = vec![item(0, 65535, 0); 65537];
    assert!(!can_solve(&items));
    assert!(can_solve(&items[..65536]));
}

#[test]
fn cannot_solve_when_the_sizes_overflow() {
    // 65538 * 65535 > u32::MAX
    let items = vec![item(0, 0, 65535); 65538];
    assert!(!can_solve(&items));
    assert!(can_solve(&items[..65537]));
}
