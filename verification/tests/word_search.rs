use grid_puzzles::word_search::{
    can_fit_word, check_all_directions, check_all_directions_optimised, check_cross_mas,
    check_next_char, check_x_down, check_x_up, check_y_left, check_y_right, get_cross_mas,
};

#[test]
fn test_check_cross_mas_nothing() {
    let word_search = vec![
        vec!['M', 'A', 'S'],
        vec!['A', 'A', 'A'],
        vec!['S', 'A', 'S'],
    ];
    assert_eq!(check_cross_mas(&word_search, 1, 0), 0);
}

#[test]
fn test_check_cross_mas_up() {
    let word_search = vec![
        vec!['S', 'A', 'S'],
        vec!['A', 'A', 'A'],
        vec!['M', 'A', 'M'],
    ];
    assert_eq!(check_cross_mas(&word_search, 2, 0), 1);
}

#[test]
fn test_get_cross_mas() {
    let word_search: Vec<Vec<char>> = vec![
        vec!['M', 'A', 'M'],
        vec!['A', 'A', 'A'],
        vec!['S', 'A', 'S'],
    ];

    let answer = get_cross_mas(&word_search);
    assert_eq!(answer, 1);
}

#[test]
fn test_get_cross_mas_2() {
    let word_search: Vec<Vec<char>> = vec![
        vec!['M', 'M', 'M', 'M'],
        vec!['.', 'A', 'A', '.'],
        vec!['S', 'S', 'S', 'S'],
    ];

    let answer = get_cross_mas(&word_search);
    assert_eq!(answer, 2);
}

#[test]
fn test_get_cross_mas_4() {
    let word_search: Vec<Vec<char>> = vec![
        vec!['M', 'M', 'M', 'M'],
        vec!['.', 'A', 'A', '.'],
        vec!['S', 'S', 'S', 'S'],
        vec!['.', 'A', 'A', '.'],
        vec!['M', 'M', 'M', 'M'],
    ];

    let answer = get_cross_mas(&word_search);
    assert_eq!(answer, 4);
}

#[test]
fn test_vertical_down() {
    let word_search: Vec<Vec<char>> = vec![
        vec!['M', '.', 'M'],
        vec!['.', 'A', '.'],
        vec!['S', '.', 'S'],
    ];

    assert_eq!(check_x_down(&word_search, 0, 0), true);
}

#[test]
fn test_vertical_down_no() {
    let word_search: Vec<Vec<char>> = vec![
        vec!['M', '.', 'S'],
        vec!['.', 'A', '.'],
        vec!['S', '.', 'S'],
    ];

    assert_eq!(check_x_down(&word_search, 0, 0), false);
}

#[test]
fn test_vertical_up() {
    let word_search: Vec<Vec<char>> = vec![
        vec!['S', '.', 'S'],
        vec!['.', 'A', '.'],
        vec!['M', '.', 'M'],
    ];

    assert_eq!(check_x_up(&word_search, 2, 0), true);
}

#[test]
fn test_vertical_up_no() {
    let word_search: Vec<Vec<char>> = vec![
        vec!['S', '.', 'M'],
        vec!['.', 'A', '.'],
        vec!['M', '.', 'M'],
    ];

    assert_eq!(check_x_up(&word_search, 2, 0), false);
}

#[test]
fn test_check_y_left() {
    let word_search: Vec<Vec<char>> = vec![
        vec!['S', '.', 'M'],
        vec!['.', 'A', '.'],
        vec!['S', '.', 'M'],
    ];

    assert_eq!(check_y_left(&word_search, 0, 2), true);
}

#[test]
fn test_check_y_left_no() {
    let word_search: Vec<Vec<char>> = vec![
        vec!['S', '.', 'M'],
        vec!['.', 'A', '.'],
        vec!['S', '.', 'S'],
    ];

    assert_eq!(check_y_left(&word_search, 0, 2), false);
}

#[test]
fn test_check_y_right() {
    let word_search: Vec<Vec<char>> = vec![
        vec!['M', '.', 'S'],
        vec!['.', 'A', '.'],
        vec!['M', '.', 'S'],
    ];

    assert_eq!(check_y_right(&word_search, 0, 0), true);
}

#[test]
fn test_check_y_right_no() {
    let word_search: Vec<Vec<char>> = vec![
        vec!['M', '.', 'S'],
        vec!['.', 'A', '.'],
        vec!['S', '.', 'S'],
    ];

    assert_eq!(check_y_right(&word_search, 0, 0), false);
}

fn sample() -> Vec<Vec<char>> {
    let lines = [
        "MMMSXXMASM",
        "MSAMXMSMSA",
        "AMXSXMAAMM",
        "MSAMASMSMX",
        "XMASAMXAMM",
        "XXAMMXXAMA",
        "SMSMSASXSS",
        "SAXAMASAAA",
        "MAMMMXMMMM",
        "MXMXAXMASX",
    ];
    lines.iter().map(|l| l.chars().collect()).collect()
}

#[test]
fn word_count_of_sample_grid() {
    let grid = sample();
    assert_eq!(check_all_directions(&grid), 18);
    assert_eq!(check_all_directions_optimised(&grid), 18);
}

#[test]
fn word_count_of_empty_grid_is_zero() {
    let grid: Vec<Vec<char>> = Vec::new();
    assert_eq!(check_all_directions(&grid), 0);
    assert_eq!(check_all_directions_optimised(&grid), 0);
    assert_eq!(get_cross_mas(&grid), 0);
}

#[test]
fn word_is_found_in_each_direction() {
    let right = vec![vec!['X', 'M', 'A', 'S']];
    assert!(check_next_char(&right, 0, 0, 0, 0, 1));
    assert!(!check_next_char(&right, 0, 0, 0, 0, -1));
    let left = vec![vec!['S', 'A', 'M', 'X']];
    assert!(check_next_char(&left, 0, 0, 3, 0, -1));
    let diagonal = vec![
        vec!['X', '.', '.', '.'],
        vec!['.', 'M', '.', '.'],
        vec!['.', '.', 'A', '.'],
        vec!['.', '.', '.', 'S'],
    ];
    assert!(check_next_char(&diagonal, 0, 0, 0, 1, 1));
    assert!(!check_next_char(&diagonal, 0, 0, 0, 1, 0));
    assert_eq!(check_all_directions(&diagonal), 1);
}

#[test]
fn matching_from_a_later_letter() {
    let grid = vec![vec!['.', 'A', 'S']];
    assert!(check_next_char(&grid, 2, 0, 1, 0, 1));
    assert!(!check_next_char(&grid, 1, 0, 1, 0, 1));
    assert!(check_next_char(&grid, 4, -5, 17, 3, 3));
}

#[test]
fn positions_outside_match_nothing() {
    let grid = vec![vec!['X', 'M', 'A', 'S']];
    assert!(!check_next_char(&grid, 0, -1, 0, 0, 1));
    assert!(!check_next_char(&grid, 0, 0, 1, 0, 1));
    assert!(!check_next_char(&grid, 0, 0, 0, isize::MAX, isize::MAX));
    assert!(!check_x_up(&grid, 7, 0));
    assert!(!check_y_left(&grid, 0, usize::MAX));
    assert!(!check_x_down(&grid, usize::MAX, usize::MAX));
}

#[test]
fn word_fits_only_inside() {
    assert!(can_fit_word(0, 0, 0, 1, 1, 4));
    assert!(!can_fit_word(0, 1, 0, 1, 1, 4));
    assert!(can_fit_word(3, 3, -1, -1, 4, 4));
    assert!(!can_fit_word(2, 3, -1, -1, 4, 4));
    assert!(!can_fit_word(0, 0, isize::MIN, 0, 4, 4));
    assert!(!can_fit_word(usize::MAX, 0, isize::MAX, 0, usize::MAX, 4));
}

#[test]
fn ragged_rows_are_checked_cell_by_cell() {
    let grid = vec![vec!['M', '.', 'M'], vec!['.', 'A'], vec!['S']];
    assert_eq!(check_x_down(&grid, 0, 0), false);
    assert_eq!(check_cross_mas(&grid, 0, 0), 0);
    assert_eq!(get_cross_mas(&grid), 0);
}

#[test]
fn sample_grid_has_nine_crosses() {
    assert_eq!(get_cross_mas(&sample()), 9);
}
