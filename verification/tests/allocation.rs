use ccp_aggregation_example::allocation::{
    allocate_evenly, allocate_fairly, allocate_proportionally, can_allocate_fairly, serve_in_order,
};
use ccp_aggregation_example::flow_table::{
    add_up, enter_all, list_by_demand, list_entries, list_socks,
};
use ccp_aggregation_example::window::{checked_increase, checked_timeout, reduce};
use std::collections::HashMap;

#[test]
fn fair_shares_meet_small_demands() {
    let order = vec![(1, 1), (2, 5)];
    assert_eq!(allocate_fairly(&order, 3, 2), vec![(1, 1), (2, 1)]);
    assert_eq!(allocate_fairly(&order, 4, 2), vec![(1, 1), (2, 3)]);
    assert_eq!(allocate_fairly(&order, 100, 2), vec![(1, 1), (2, 5)]);
    assert_eq!(allocate_fairly(&order, 0, 2), vec![(1, 0), (2, 0)]);
    assert_eq!(allocate_fairly(&vec![], 10, 0), vec![]);
}

#[test]
fn fair_shares_keep_a_level_for_flows_that_do_not_ask() {
    let order = vec![(1, 50), (2, 60)];
    assert_eq!(allocate_fairly(&order, 90, 3), vec![(1, 30), (2, 30)]);
}

#[test]
fn fair_shares_need_flows_to_split_among() {
    assert!(can_allocate_fairly(&vec![], 10, 0));
    assert!(!can_allocate_fairly(&vec![(1, 1)], 10, 0));
    assert!(can_allocate_fairly(&vec![(1, 10), (2, 10)], 10, 1));
    assert!(!can_allocate_fairly(&vec![(1, 9), (2, 10)], 10, 1));
    assert_eq!(allocate_fairly(&vec![(1, 10), (2, 10)], 10, 1), vec![(1, 10), (2, 10)]);
}

#[test]
fn even_shares_round_down() {
    assert_eq!(allocate_evenly(&vec![(4, 9), (5, 0)], 7, 2), vec![(4, 3), (5, 3)]);
    assert_eq!(allocate_evenly(&vec![], 7, 0), vec![]);
}

#[test]
fn proportional_shares_do_not_overflow() {
    assert_eq!(
        allocate_proportionally(&vec![(1, u32::MAX), (2, 0)], u32::MAX, u32::MAX),
        vec![(1, u32::MAX), (2, 0)]
    );
    assert_eq!(allocate_proportionally(&vec![(1, 1), (2, 2)], 100, 3), vec![(1, 33), (2, 66)]);
}

#[test]
fn serving_in_order_keeps_the_rest_out() {
    let order = vec![(1, 4), (2, 6), (3, 0), (4, 9)];
    assert_eq!(serve_in_order(&order, 10), vec![(1, 4), (2, 6), (3, 1), (4, 1)]);
    assert_eq!(serve_in_order(&order, 0), vec![(1, 1), (2, 1), (3, 1), (4, 1)]);
    assert_eq!(serve_in_order(&order, 15), vec![(1, 4), (2, 6), (3, 0), (4, 5)]);
    assert_eq!(serve_in_order(&order, 20), order);
}

#[test]
fn tables_are_listed_and_entered() {
    let mut table: HashMap<u32, u32> = HashMap::new();
    enter_all(&mut table, &vec![(3, 30), (1, 10), (3, 5)]);
    assert_eq!(table.len(), 2);
    assert_eq!(add_up(&table), 15);
    assert_eq!(list_by_demand(&table), vec![(3, 5), (1, 10)]);
    let mut entries = list_entries(&table);
    entries.sort();
    assert_eq!(entries, vec![(1, 10), (3, 5)]);
    let mut socks = list_socks(&table);
    socks.sort();
    assert_eq!(socks, vec![1, 3]);
}

#[test]
fn increase_is_checked() {
    assert_eq!(checked_increase(10, 100, 3, 20), Some(30));
    assert_eq!(checked_increase(10, 100, 3, 189), Some(100));
    assert_eq!(checked_increase(10, 100, 3, 190), Some(100 + 1448 * 3));
    assert_eq!(checked_increase(100, 100, 0, 1000), Some(100));
    assert_eq!(checked_increase(0, 0, 1, 1000), None);
    assert_eq!(checked_increase(10, 100, 3_000_000, 0), None);
    assert_eq!(checked_increase(10, 100, 1, u32::MAX), None);
    assert_eq!(checked_increase(1, 1, 1_000_000, 1000), None);
}

#[test]
fn timeout_is_checked() {
    assert_eq!(checked_timeout(30000, 3, 9000), Some(29000));
    assert_eq!(checked_timeout(30000, 1, 9000), Some(9000));
    assert_eq!(checked_timeout(30000, 0, 9000), None);
    assert_eq!(checked_timeout(u32::MAX, 3, 0), None);
    assert_eq!(checked_timeout(u32::MAX, 2, 1), Some(0x8000_0000));
    assert_eq!(checked_timeout(u32::MAX, 2, u32::MAX), None);
}

#[test]
fn reduction_stops_at_the_initial_window() {
    assert_eq!(reduce(40000, 1, 10000), 20000);
    assert_eq!(reduce(40000, 2, 10000), 30000);
    assert_eq!(reduce(15000, 1, 10000), 10000);
    assert_eq!(reduce(10000, 1, 5000), 5000);
}

#[test]
fn fair_shares_use_the_window_and_no_more() {
    let order = vec![(1, 3), (2, 40), (3, 50), (4, 50)];
    let windows = allocate_fairly(&order, 100, 4);
    assert_eq!(windows, vec![(1, 3), (2, 32), (3, 32), (4, 32)]);
    let given: u32 = windows.iter().map(|w| w.1).sum();
    assert!(given <= 100 && given + 4 > 100);
}

#[test]
fn more_askers_than_flows_get_more_than_the_window() {
    let windows = allocate_fairly(&vec![(1, 60), (2, 60)], 50, 1);
    assert_eq!(windows, vec![(1, 50), (2, 50)]);
}
