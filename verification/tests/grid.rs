use grid_puzzles::cell_set::CellSet;
use grid_puzzles::direction::Direction;
use grid_puzzles::grid::{cell_at, Coord, Grid, GridError};

fn lines(text: &[&str]) -> Vec<String> {
    text.iter().map(|line| line.to_string()).collect()
}

#[test]
fn grid_from_lines_has_their_cells() {
    let grid = Grid::new(lines(&["abc", "def"])).unwrap();
    assert_eq!(grid.height(), 2);
    assert_eq!(grid.width(), 3);
    assert_eq!(grid.get(0, 0), Ok('a'));
    assert_eq!(grid.get(1, 2), Ok('f'));
    assert_eq!(grid.at(1, 1), 'e');
}

#[test]
fn grid_counts_characters_not_bytes() {
    let grid = Grid::new(lines(&["äö", "xy"])).unwrap();
    assert_eq!(grid.width(), 2);
    assert_eq!(grid.get(0, 1), Ok('ö'));
}

#[test]
fn get_outside_is_out_of_bounds() {
    let grid = Grid::new(lines(&["abc", "def"])).unwrap();
    assert_eq!(grid.get(2, 0), Err(GridError::OutOfBounds));
    assert_eq!(grid.get(0, 3), Err(GridError::OutOfBounds));
    assert_eq!(grid.get(usize::MAX, usize::MAX), Err(GridError::OutOfBounds));
}

#[test]
fn rows_of_unequal_length_are_malformed() {
    assert!(matches!(Grid::new(lines(&["abc", "de"])), Err(GridError::MalformedGrid)));
    assert!(matches!(
        Grid::from_cells(vec![vec!['a'], vec!['b', 'c']]),
        Err(GridError::MalformedGrid)
    ));
    assert!(matches!(Grid::from_cells(vec![vec![], vec!['b']]), Err(GridError::MalformedGrid)));
}

#[test]
fn empty_grid_is_accepted() {
    let grid = Grid::new(Vec::new()).unwrap();
    assert_eq!(grid.height(), 0);
    assert_eq!(grid.width(), 0);
    assert_eq!(grid.get(0, 0), Err(GridError::OutOfBounds));
    assert!(grid.find_digit('0').is_empty());
}

#[test]
fn in_bounds_checks_both_axes() {
    let grid = Grid::new(lines(&["abc", "def"])).unwrap();
    assert!(grid.is_in_bounds(0, 0));
    assert!(grid.is_in_bounds(1, 2));
    assert!(!grid.is_in_bounds(-1, 0));
    assert!(!grid.is_in_bounds(0, -1));
    assert!(!grid.is_in_bounds(2, 0));
    assert!(!grid.is_in_bounds(0, 3));
    assert!(!grid.is_in_bounds(isize::MIN, isize::MAX));
}

#[test]
fn find_digit_lists_in_row_major_order() {
    let grid = Grid::new(lines(&["0a0", "b0c", "000"])).unwrap();
    let found = grid.find_digit('0');
    let expected = vec![
        Coord { row: 0, col: 0 },
        Coord { row: 0, col: 2 },
        Coord { row: 1, col: 1 },
        Coord { row: 2, col: 0 },
        Coord { row: 2, col: 1 },
        Coord { row: 2, col: 2 },
    ];
    assert_eq!(found, expected);
    assert!(grid.find_digit('z').is_empty());
}

#[test]
fn set_changes_one_cell() {
    let mut grid = Grid::new(lines(&["abc", "def"])).unwrap();
    assert_eq!(grid.set(1, 1, '#'), Ok(()));
    assert_eq!(grid.get(1, 1), Ok('#'));
    assert_eq!(grid.get(1, 0), Ok('d'));
    assert_eq!(grid.get(0, 1), Ok('b'));
    assert_eq!(grid.set(2, 1, '#'), Err(GridError::OutOfBounds));
    assert_eq!(grid.get(1, 2), Ok('f'));
}

#[test]
fn duplicate_is_independent_of_its_source() {
    let grid = Grid::new(lines(&["abc", "def"])).unwrap();
    let mut copy = grid.duplicate();
    copy.set(0, 0, 'z').unwrap();
    assert_eq!(grid.get(0, 0), Ok('a'));
    assert_eq!(copy.get(0, 0), Ok('z'));
    assert_eq!(copy.get(1, 2), Ok('f'));
}

#[test]
fn step_stays_on_the_grid() {
    let grid = Grid::new(lines(&["abc", "def"])).unwrap();
    let corner = Coord { row: 0, col: 0 };
    assert_eq!(grid.step(corner, 0, 1), Some(Coord { row: 0, col: 1 }));
    assert_eq!(grid.step(corner, 1, 2), Some(Coord { row: 1, col: 2 }));
    assert_eq!(grid.step(corner, -1, 0), None);
    assert_eq!(grid.step(corner, 0, -1), None);
    assert_eq!(grid.step(corner, 2, 0), None);
    assert_eq!(grid.step(Coord { row: 1, col: 2 }, 0, 1), None);
    assert_eq!(grid.step(corner, isize::MAX, isize::MIN), None);
}

#[test]
fn cell_at_reads_ragged_rows() {
    let cells = vec![vec!['a', 'b', 'c'], vec!['d']];
    assert_eq!(cell_at(&cells, 0, 2), Some('c'));
    assert_eq!(cell_at(&cells, 1, 0), Some('d'));
    assert_eq!(cell_at(&cells, 1, 1), None);
    assert_eq!(cell_at(&cells, -1, 0), None);
    assert_eq!(cell_at(&cells, 2, 0), None);
}

#[test]
fn directions_turn_clockwise() {
    assert_eq!(Direction::North.turn_right(), Direction::East);
    assert_eq!(Direction::East.turn_right(), Direction::South);
    assert_eq!(Direction::South.turn_right(), Direction::West);
    assert_eq!(Direction::West.turn_right(), Direction::North);
}

#[test]
fn direction_offsets_and_markers() {
    assert_eq!(Direction::North.offset(), (-1, 0));
    assert_eq!(Direction::East.offset(), (0, 1));
    assert_eq!(Direction::South.offset(), (1, 0));
    assert_eq!(Direction::West.offset(), (0, -1));
    assert_eq!(Direction::from_marker('^'), Some(Direction::North));
    assert_eq!(Direction::from_marker('>'), Some(Direction::East));
    assert_eq!(Direction::from_marker('v'), Some(Direction::South));
    assert_eq!(Direction::from_marker('<'), Some(Direction::West));
    assert_eq!(Direction::from_marker('.'), None);
}

#[test]
fn cell_set_counts_and_lists_members() {
    let mut set = CellSet::new(2, 3);
    assert_eq!(set.count(), 0);
    set.insert(Coord { row: 1, col: 2 });
    set.insert(Coord { row: 0, col: 1 });
    set.insert(Coord { row: 1, col: 2 });
    assert_eq!(set.count(), 2);
    assert!(set.contains(Coord { row: 0, col: 1 }));
    assert!(!set.contains(Coord { row: 0, col: 0 }));
    assert!(!set.contains(Coord { row: 5, col: 0 }));
    assert_eq!(set.to_vec(), vec![Coord { row: 0, col: 1 }, Coord { row: 1, col: 2 }]);
}

#[test]
fn lines_written_are_read_back() {
    let texts: [&[&str]; 4] = [&["abc", "def"], &["#"], &[], &["äö", "xy"]];
    for text in texts {
        let grid = Grid::new(lines(text)).unwrap();
        let written = grid.to_lines();
        assert_eq!(written, lines(text));
        let again = Grid::new(written).unwrap();
        assert_eq!(again.height(), grid.height());
        assert_eq!(again.width(), grid.width());
        for row in 0..grid.height() + 1 {
            for col in 0..grid.width() + 1 {
                assert_eq!(again.get(row, col), grid.get(row, col));
            }
        }
    }
}

#[test]
fn text_written_is_read_back() {
    let grid = Grid::new(lines(&["ab", "cd", "ef"])).unwrap();
    let text = grid.to_text();
    assert_eq!(text, "ab\ncd\nef\n");
    let again = Grid::parse(&text).unwrap();
    assert_eq!(again.to_lines(), grid.to_lines());
    for row in 0..4 {
        for col in 0..3 {
            assert_eq!(again.get(row, col), grid.get(row, col));
        }
    }
}

#[test]
fn cell_with_a_line_feed_is_not_read_back() {
    let grid = Grid::from_cells(vec![vec!['a', '\n'], vec!['b', 'c']]).unwrap();
    assert_eq!(grid.to_text(), "a\n\nbc\n");
    assert!(matches!(Grid::parse(&grid.to_text()), Err(GridError::MalformedGrid)));
}

#[test]
fn parse_takes_a_last_line_without_line_feed() {
    let grid = Grid::parse("ab\ncd").unwrap();
    assert_eq!(grid.height(), 2);
    assert_eq!(grid.get(1, 1), Ok('d'));
    let grid = Grid::parse("ab\ncd\n").unwrap();
    assert_eq!(grid.height(), 2);
    let grid = Grid::parse("").unwrap();
    assert_eq!(grid.height(), 0);
    let grid = Grid::parse("\n\n").unwrap();
    assert_eq!(grid.height(), 2);
    assert_eq!(grid.width(), 0);
    assert!(matches!(Grid::parse("ab\n\ncd"), Err(GridError::MalformedGrid)));
}

#[test]
fn find_all_lists_the_cells_that_match() {
    let grid = Grid::new(lines(&["a1b", "2c3"])).unwrap();
    let digits = grid.find_all(|ch: char| ch.is_ascii_digit());
    assert_eq!(
        digits,
        vec![Coord { row: 0, col: 1 }, Coord { row: 1, col: 0 }, Coord { row: 1, col: 2 }]
    );
    assert!(grid.find_all(|_ch: char| false).is_empty());
    assert_eq!(grid.find_all(|_ch: char| true).len(), 6);
}
