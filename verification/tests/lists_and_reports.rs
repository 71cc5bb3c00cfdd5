use grid_puzzles::calibration::get_is_product_possible;
use grid_puzzles::lists::{calculate_sum_of_differences, calculate_weighted_sum};
use grid_puzzles::reports::{is_safe_by_removing_one_element, is_safe_report};

#[test]
fn distances_of_sorted_lists_add_up() {
    let left = [1, 2, 3, 3, 3, 4];
    let right = [3, 3, 3, 4, 5, 9];
    assert_eq!(calculate_sum_of_differences(&left, &right), 11);
    assert_eq!(calculate_sum_of_differences(&right, &left), 11);
}

#[test]
fn distances_go_as_far_as_the_shorter_list() {
    assert_eq!(calculate_sum_of_differences(&[5, 1], &[1, 5, 100]), 8);
    assert_eq!(calculate_sum_of_differences(&[], &[1, 2]), 0);
    assert_eq!(calculate_sum_of_differences(&[-3], &[4]), 7);
    assert_eq!(calculate_sum_of_differences(&[i32::MIN + 1], &[0]), i32::MAX);
}

#[test]
fn numbers_weigh_as_often_as_they_stand_in_the_other_list() {
    let left = [3, 4, 2, 1, 3, 3];
    let right = [4, 3, 5, 3, 9, 3];
    assert_eq!(calculate_weighted_sum(&left, &right), 31);
    assert_eq!(calculate_weighted_sum(&right, &left), 9 + 4 + 9 + 9);
    assert_eq!(calculate_weighted_sum(&[7, 7], &[]), 0);
    assert_eq!(calculate_weighted_sum(&[-2, 5], &[-2, -2, 0]), -4);
}

#[test]
fn gentle_slopes_are_safe() {
    assert!(is_safe_report(&[7, 6, 4, 2, 1]));
    assert!(!is_safe_report(&[1, 2, 7, 8, 9]));
    assert!(!is_safe_report(&[9, 7, 6, 2, 1]));
    assert!(!is_safe_report(&[1, 3, 2, 4, 5]));
    assert!(!is_safe_report(&[8, 6, 4, 4, 1]));
    assert!(is_safe_report(&[1, 3, 6, 7, 9]));
}

#[test]
fn short_reports_are_safe() {
    assert!(is_safe_report(&[]));
    assert!(is_safe_report(&[5]));
    assert!(is_safe_report(&[5, 8]));
    assert!(!is_safe_report(&[5, 5]));
    assert!(!is_safe_report(&[5, 9]));
    assert!(!is_safe_report(&[i32::MIN, i32::MAX]));
    assert!(!is_safe_report(&[i32::MAX, i32::MIN]));
}

#[test]
fn one_level_may_be_left_out() {
    assert!(is_safe_by_removing_one_element(&[7, 6, 4, 2, 1]));
    assert!(!is_safe_by_removing_one_element(&[1, 2, 7, 8, 9]));
    assert!(!is_safe_by_removing_one_element(&[9, 7, 6, 2, 1]));
    assert!(is_safe_by_removing_one_element(&[1, 3, 2, 4, 5]));
    assert!(is_safe_by_removing_one_element(&[8, 6, 4, 4, 1]));
    assert!(is_safe_by_removing_one_element(&[1, 3, 6, 7, 9]));
    assert!(!is_safe_by_removing_one_element(&[]));
    assert!(is_safe_by_removing_one_element(&[4]));
    assert!(is_safe_by_removing_one_element(&[10, 1, 2, 3]));
    assert!(is_safe_by_removing_one_element(&[1, 2, 3, 10]));
}

#[test]
fn totals_from_sums_and_products() {
    assert!(get_is_product_possible(&vec![10, 19], 190));
    assert!(get_is_product_possible(&vec![81, 40, 27], 3267));
    assert!(!get_is_product_possible(&vec![17, 5], 83));
    assert!(!get_is_product_possible(&vec![16, 10, 13], 161011));
    assert!(!get_is_product_possible(&vec![9, 7, 18, 13], 21037));
    assert!(get_is_product_possible(&vec![11, 6, 16, 20], 292));
}

#[test]
fn totals_from_digits_run_together() {
    assert!(get_is_product_possible(&vec![15, 6], 156));
    assert!(get_is_product_possible(&vec![6, 8, 6, 15], 7290));
    assert!(get_is_product_possible(&vec![17, 8, 14], 192));
    assert!(get_is_product_possible(&vec![12, 0], 120));
    assert!(get_is_product_possible(&vec![0, 5], 5));
    assert!(get_is_product_possible(&vec![-12, 3], -123));
    assert!(get_is_product_possible(&vec![1, 100], 1100));
}

#[test]
fn totals_from_one_number_or_none() {
    assert!(get_is_product_possible(&vec![7], 7));
    assert!(!get_is_product_possible(&vec![7], 8));
    assert!(!get_is_product_possible(&vec![], 0));
}
