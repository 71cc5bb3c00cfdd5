use grid_puzzles::grid::{Coord, Grid, GridError};
use grid_puzzles::trails::{
    char_to_digit, count_paths, digit_to_char, find_next_number_from_current_coord,
    NumberPathFinder, Path, TrailCounts,
};

fn grid(text: &[&str]) -> Grid {
    Grid::new(text.iter().map(|line| line.to_string()).collect()).unwrap()
}

fn counts(text: &[&str]) -> (usize, usize) {
    let grid = grid(text);
    let mut finder = NumberPathFinder::new(&grid);
    finder.find_all_paths().unwrap();
    (finder.unique_path_count(), finder.total_path_count())
}

#[test]
fn straight_corridor_has_one_trail() {
    assert_eq!(counts(&["0123456789"]), (1, 1));
    assert_eq!(counts(&["9876543210"]), (1, 1));
}

#[test]
fn vertical_corridor_has_one_trail() {
    assert_eq!(counts(&["0", "1", "2", "3", "4", "5", "6", "7", "8", "9"]), (1, 1));
}

#[test]
fn larger_map_counts_ends_and_trails() {
    let map = [
        "89010123", "78121874", "87430965", "96549874", "45678903", "32019012", "01329801",
        "10456732",
    ];
    assert_eq!(counts(&map), (36, 81));
}

#[test]
fn two_trails_to_one_summit_are_one_pair() {
    let map = ["0123", "1234", "8765", "9876"];
    assert_eq!(counts(&map), (1, 16));
}

#[test]
fn unique_count_is_at_most_total_count() {
    let maps: [&[&str]; 3] = [
        &["0123", "1234", "8765", "9876"],
        &["012345", "123456", "234567", "345678", "416789", "567891"],
        &["10", "21"],
    ];
    for map in maps {
        let (unique, total) = counts(map);
        assert!(unique <= total);
    }
}

#[test]
fn zero_without_neighbour_counts_nothing() {
    assert_eq!(counts(&["0"]), (0, 0));
    assert_eq!(counts(&["03", "59"]), (0, 0));
    assert_eq!(counts(&["9"]), (0, 0));
}

#[test]
fn empty_grid_has_no_trail() {
    let grid = Grid::new(Vec::new()).unwrap();
    let mut finder = NumberPathFinder::new(&grid);
    assert_eq!(finder.find_all_paths(), Ok(()));
    assert_eq!(finder.unique_path_count(), 0);
    assert_eq!(finder.total_path_count(), 0);
}

#[test]
fn cell_without_digit_is_refused() {
    let grid = grid(&["0123456789", "....x....."]);
    let mut finder = NumberPathFinder::new(&grid);
    assert_eq!(finder.find_all_paths(), Err(GridError::InvalidCharacter));
    assert_eq!(finder.unique_path_count(), 0);
    assert_eq!(finder.total_path_count(), 0);
}

#[test]
fn searching_twice_doubles_the_total_only() {
    let grid = grid(&["0123456789"]);
    let mut finder = NumberPathFinder::new(&grid);
    finder.find_all_paths().unwrap();
    finder.find_all_paths().unwrap();
    assert_eq!(finder.unique_path_count(), 1);
    assert_eq!(finder.total_path_count(), 2);
}

#[test]
fn same_grid_gives_same_counts() {
    let map = [
        "89010123", "78121874", "87430965", "96549874", "45678903", "32019012", "01329801",
        "10456732",
    ];
    assert_eq!(counts(&map), counts(&map));
}

#[test]
fn search_from_a_later_digit() {
    let grid = grid(&["0123456789"]);
    let mut finder = NumberPathFinder::new(&grid);
    let start = Coord { row: 0, col: 0 };
    finder.dfs(start, Coord { row: 0, col: 7 }, '7');
    assert_eq!(finder.unique_path_count(), 1);
    assert_eq!(finder.total_path_count(), 1);
    finder.dfs(start, Coord { row: 0, col: 9 }, '9');
    assert_eq!(finder.unique_path_count(), 1);
    assert_eq!(finder.total_path_count(), 2);
    finder.dfs(start, Coord { row: 0, col: 3 }, '7');
    assert_eq!(finder.total_path_count(), 2);
}

#[test]
fn search_on_a_character_matrix() {
    let columns: Vec<Vec<char>> =
        ["0123", "1234", "8765", "9876"].iter().map(|line| line.chars().collect()).collect();
    let mut pairs: Vec<Path> = Vec::new();
    let mut total: usize = 0;
    find_next_number_from_current_coord(&(0, 0), &columns, &(0, 0), "0", &mut pairs, &mut total);
    assert_eq!(total, 16);
    assert_eq!(
        pairs,
        vec![Path::new(Coord { row: 0, col: 0 }, Coord { row: 3, col: 0 })]
    );
    find_next_number_from_current_coord(&(0, 0), &columns, &(3, 0), "9", &mut pairs, &mut total);
    assert_eq!(total, 17);
    assert_eq!(pairs.len(), 1);
}

#[test]
fn search_on_ragged_rows_checks_each_cell() {
    let columns: Vec<Vec<char>> = vec![vec!['8', '9'], vec!['9']];
    let mut pairs: Vec<Path> = Vec::new();
    let mut total: usize = 0;
    find_next_number_from_current_coord(&(0, 0), &columns, &(0, 0), "8", &mut pairs, &mut total);
    assert_eq!(total, 2);
    assert_eq!(pairs.len(), 2);
    find_next_number_from_current_coord(&(0, 0), &columns, &(1, 1), "8", &mut pairs, &mut total);
    assert_eq!(total, 4);
    assert_eq!(pairs.len(), 2);
    find_next_number_from_current_coord(&(0, 0), &columns, &(5, 5), "8", &mut pairs, &mut total);
    assert_eq!(total, 4);
}

#[test]
fn digits_and_characters() {
    for d in 0u8..10 {
        assert_eq!(char_to_digit(digit_to_char(d)), Some(d));
    }
    assert_eq!(digit_to_char(7), '7');
    assert_eq!(char_to_digit('a'), None);
    assert_eq!(char_to_digit('٣'), None);
}

#[test]
fn count_paths_gives_both_counts() {
    let map = [
        "89010123", "78121874", "87430965", "96549874", "45678903", "32019012", "01329801",
        "10456732",
    ];
    assert_eq!(count_paths(&grid(&map)), Ok(TrailCounts { unique: 36, total: 81 }));
    assert_eq!(count_paths(&grid(&["0123456789"])), Ok(TrailCounts { unique: 1, total: 1 }));
    assert_eq!(count_paths(&grid(&["01a"])), Err(GridError::InvalidCharacter));
}
