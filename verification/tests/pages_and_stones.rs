use std::collections::HashMap;

use grid_puzzles::page_order::{
    create_adjacency_list_and_indegree_map, get_valid_rules_pairs, topological_sort,
    validate_page_order,
};
use grid_puzzles::stones::{
    blink_map, count_stones, create_stones_map, insert_key_or_increment_value, iterate_stones_map,
};

fn sample_rules() -> Vec<(i32, i32)> {
    vec![
        (47, 53),
        (97, 13),
        (97, 61),
        (97, 47),
        (75, 29),
        (61, 13),
        (75, 53),
        (29, 13),
        (97, 29),
        (53, 29),
        (61, 53),
        (97, 53),
        (61, 29),
        (47, 13),
        (75, 47),
        (97, 75),
        (47, 61),
        (75, 61),
        (47, 29),
        (75, 13),
        (53, 13),
    ]
}

fn sorted(rules: &Vec<(i32, i32)>) -> Vec<i32> {
    let (adjacency, mut degrees) = create_adjacency_list_and_indegree_map(rules);
    topological_sort(&adjacency, &mut degrees)
}

#[test]
fn graph_lists_children_and_counts_parents() {
    let rules = vec![(1, 2), (1, 3), (2, 3), (1, 2)];
    let (adjacency, degrees) = create_adjacency_list_and_indegree_map(&rules);
    assert_eq!(adjacency.len(), 2);
    assert_eq!(adjacency[&1], vec![2, 3, 2]);
    assert_eq!(adjacency[&2], vec![3]);
    assert_eq!(degrees.len(), 3);
    assert_eq!(degrees[&1], 0);
    assert_eq!(degrees[&2], 2);
    assert_eq!(degrees[&3], 2);
}

#[test]
fn total_order_is_sorted_as_it_is() {
    assert_eq!(sorted(&sample_rules()), vec![97, 75, 47, 61, 53, 29, 13]);
}

#[test]
fn every_page_stands_behind_its_parents() {
    let rules = vec![(1, 2), (1, 3), (2, 4), (3, 4), (5, 4), (6, 7), (1, 2)];
    let order = sorted(&rules);
    assert_eq!(order.len(), 7);
    for (parent, child) in &rules {
        let before = order.iter().position(|page| page == parent).unwrap();
        let after = order.iter().position(|page| page == child).unwrap();
        assert!(before < after);
    }
    let mut seen = order.clone();
    seen.sort();
    assert_eq!(seen, vec![1, 2, 3, 4, 5, 6, 7]);
}

#[test]
fn pages_in_a_cycle_are_left_out() {
    let rules = vec![(1, 2), (2, 3), (3, 2), (3, 4), (5, 5)];
    assert_eq!(sorted(&rules), vec![1]);
    assert_eq!(sorted(&Vec::new()), Vec::<i32>::new());
}

#[test]
fn degrees_are_counted_down() {
    let rules = vec![(1, 2), (2, 3), (3, 2)];
    let (adjacency, mut degrees) = create_adjacency_list_and_indegree_map(&rules);
    let order = topological_sort(&adjacency, &mut degrees);
    assert_eq!(order, vec![1]);
    assert_eq!(degrees[&1], 0);
    assert_eq!(degrees[&2], 1);
    assert_eq!(degrees[&3], 1);
}

#[test]
fn rules_of_an_update_begin_with_its_pages() {
    let rules = vec![(1, 2), (3, 1), (2, 9), (4, 1)];
    assert_eq!(get_valid_rules_pairs(&rules, &vec![1, 2]), vec![(1, 2), (2, 9)]);
    assert_eq!(get_valid_rules_pairs(&rules, &vec![]), vec![]);
    assert_eq!(get_valid_rules_pairs(&rules, &vec![4, 3, 2, 1]), rules);
}

#[test]
fn update_in_order_gives_its_middle_page() {
    let order = vec![97, 75, 47, 61, 53, 29, 13];
    assert_eq!(validate_page_order(&order, &vec![75, 47, 61, 53, 29]), 61);
    assert_eq!(validate_page_order(&order, &vec![97, 61, 53, 29, 13]), 53);
    assert_eq!(validate_page_order(&order, &vec![75, 29, 13]), 29);
    assert_eq!(validate_page_order(&order, &vec![13]), 13);
    assert_eq!(validate_page_order(&order, &vec![97, 13]), 97);
    assert_eq!(validate_page_order(&order, &vec![47, 47, 61]), 47);
}

#[test]
fn update_out_of_order_gives_zero() {
    let order = vec![97, 75, 47, 61, 53, 29, 13];
    assert_eq!(validate_page_order(&order, &vec![75, 97, 47, 61, 53]), 0);
    assert_eq!(validate_page_order(&order, &vec![61, 13, 29]), 0);
    assert_eq!(validate_page_order(&order, &vec![97, 13, 75, 29, 47]), 0);
    assert_eq!(validate_page_order(&order, &vec![97, 5, 13]), 0);
    assert_eq!(validate_page_order(&Vec::new(), &vec![1]), 0);
}

#[test]
fn sample_updates_add_up() {
    let updates: Vec<Vec<i32>> = vec![
        vec![75, 47, 61, 53, 29],
        vec![97, 61, 53, 29, 13],
        vec![75, 29, 13],
        vec![75, 97, 47, 61, 53],
        vec![61, 13, 29],
        vec![97, 13, 75, 29, 47],
    ];
    let rules = sample_rules();
    let mut count = 0;
    for pages in &updates {
        let valid = get_valid_rules_pairs(&rules, pages);
        let (adjacency, mut degrees) = create_adjacency_list_and_indegree_map(&valid);
        let order = topological_sort(&adjacency, &mut degrees);
        count += validate_page_order(&order, pages);
    }
    assert_eq!(count, 143);
}

#[test]
fn stones_are_counted_by_number() {
    let map = create_stones_map(vec![125, 17, 125, 0]);
    assert_eq!(map.len(), 3);
    assert_eq!(map[&125], 2);
    assert_eq!(map[&17], 1);
    assert_eq!(map[&0], 1);
    assert_eq!(count_stones(&map), 4);
    assert_eq!(count_stones(&HashMap::new()), 0);
}

#[test]
fn count_goes_up_by_the_value() {
    let mut map: HashMap<usize, usize> = HashMap::new();
    insert_key_or_increment_value(&mut map, 7, 3);
    insert_key_or_increment_value(&mut map, 7, 4);
    insert_key_or_increment_value(&mut map, 8, 1);
    assert_eq!(map[&7], 7);
    assert_eq!(map[&8], 1);
}

#[test]
fn one_blink_changes_each_stone() {
    let map = create_stones_map(vec![0, 1, 10, 99, 999, 1000]);
    let after = blink_map(&map);
    let mut entries: Vec<(usize, usize)> = after.iter().map(|(k, v)| (*k, *v)).collect();
    entries.sort();
    assert_eq!(entries, vec![(0, 2), (1, 2), (9, 2), (10, 1), (2024, 1), (2021976, 1)]);
}

#[test]
fn sample_stones_after_six_blinks() {
    let map = create_stones_map(vec![125, 17]);
    let after = iterate_stones_map(&map, 69);
    assert_eq!(count_stones(&after), 22);
    let mut entries: Vec<(usize, usize)> = after.iter().map(|(k, v)| (*k, *v)).collect();
    entries.sort();
    let expected: Vec<usize> = vec![
        2097446912, 14168, 4048, 2, 0, 2, 4, 40, 48, 2024, 40, 48, 80, 96, 2, 8, 6, 7, 6, 0, 3,
        2,
    ];
    let mut counts: HashMap<usize, usize> = HashMap::new();
    for stone in expected {
        *counts.entry(stone).or_insert(0) += 1;
    }
    let mut expected_entries: Vec<(usize, usize)> = counts.into_iter().collect();
    expected_entries.sort();
    assert_eq!(entries, expected_entries);
}

#[test]
fn sample_stones_after_twenty_five_blinks() {
    let map = create_stones_map(vec![125, 17]);
    assert_eq!(count_stones(&iterate_stones_map(&map, 50)), 55312);
}

#[test]
fn sample_stones_after_all_blinks() {
    let map = create_stones_map(vec![125, 17]);
    assert_eq!(count_stones(&iterate_stones_map(&map, 0)), 65601038650482);
}

#[test]
fn no_blink_is_left_behind_the_last() {
    let map = create_stones_map(vec![125, 17]);
    assert_eq!(iterate_stones_map(&map, 75), map);
    assert_eq!(iterate_stones_map(&map, 1000), map);
    assert_eq!(count_stones(&iterate_stones_map(&map, 74)), 3);
}
