use grid_puzzles::direction::Direction;
use grid_puzzles::grid::{Coord, Grid};
use grid_puzzles::region_scan::{find_regions, is_adjacent_to_area, RegionScanner};
use grid_puzzles::regions::{generate_distinct_color, ProcessingState};

fn grid(text: &[&str]) -> Grid {
    Grid::new(text.iter().map(|line| line.to_string()).collect()).unwrap()
}

fn areas_and_perimeters(text: &[&str]) -> Vec<(char, usize, usize)> {
    let scanner = find_regions(grid(text));
    scanner.regions().iter().map(|r| (r.member, r.area(), r.perimeter())).collect()
}

#[test]
fn single_cell_has_perimeter_four() {
    let scanner = find_regions(grid(&["A"]));
    assert_eq!(scanner.processing_state(), ProcessingState::Complete);
    assert_eq!(scanner.regions().len(), 1);
    let region = &scanner.regions()[0];
    assert_eq!(region.area(), 1);
    assert_eq!(region.perimeter(), 4);
    assert_eq!(region.score(), 4);
    assert_eq!(scanner.total_score(), 4);
    assert_eq!(scanner.calculate_total_score(), 4);
    assert_eq!(
        region.perimeter_segments,
        vec![
            (Coord { row: 0, col: 0 }, Direction::North),
            (Coord { row: 0, col: 0 }, Direction::East),
            (Coord { row: 0, col: 0 }, Direction::South),
            (Coord { row: 0, col: 0 }, Direction::West),
        ]
    );
}

#[test]
fn isolated_cell_among_others_has_perimeter_four() {
    let found = areas_and_perimeters(&["BBB", "BAB", "BBB"]);
    assert_eq!(found, vec![('B', 8, 16), ('A', 1, 4)]);
}

#[test]
fn block_of_four_has_perimeter_eight() {
    let scanner = find_regions(grid(&["BBBB", "BAAB", "BAAB", "BBBB"]));
    let regions = scanner.regions();
    assert_eq!(regions.len(), 2);
    assert_eq!(regions[1].member, 'A');
    assert_eq!(regions[1].area(), 4);
    assert_eq!(regions[1].perimeter(), 8);
    assert_eq!(regions[1].score(), 32);
    assert_eq!(regions[0].area(), 12);
    assert_eq!(regions[0].perimeter(), 24);
    assert_eq!(scanner.total_score(), 320);
}

#[test]
fn small_garden_scores_140() {
    let text = ["AAAA", "BBCD", "BBCC", "EEEC"];
    assert_eq!(
        areas_and_perimeters(&text),
        vec![('A', 4, 10), ('B', 4, 8), ('C', 4, 10), ('D', 1, 4), ('E', 3, 8)]
    );
    assert_eq!(find_regions(grid(&text)).total_score(), 140);
}

#[test]
fn garden_with_holes_scores_772() {
    let text = ["OOOOO", "OXOXO", "OOOOO", "OXOXO", "OOOOO"];
    let scanner = find_regions(grid(&text));
    assert_eq!(scanner.regions().len(), 5);
    assert_eq!(scanner.regions()[0].area(), 21);
    assert_eq!(scanner.regions()[0].perimeter(), 36);
    assert_eq!(scanner.total_score(), 772);
}

#[test]
fn larger_garden_scores_1930() {
    let text = [
        "RRRRIICCFF",
        "RRRRIICCCF",
        "VVRRRCCFFF",
        "VVRCCCJFFF",
        "VVVVCJJCFE",
        "VVIVCCJJEE",
        "VVIIICJJEE",
        "MIIIIIJJEE",
        "MIIISIJEEE",
        "MMMISSJEEE",
    ];
    let scanner = find_regions(grid(&text));
    assert_eq!(scanner.regions().len(), 11);
    assert_eq!(scanner.total_score(), 1930);
    assert_eq!(scanner.step_count(), 18 + 8 + 28 + 18 + 20 + 20 + 4 + 18 + 22 + 12 + 8);
}

#[test]
fn areas_add_up_to_the_number_of_cells() {
    let texts: [&[&str]; 4] = [
        &["AAAA", "BBCD", "BBCC", "EEEC"],
        &["OOOOO", "OXOXO", "OOOOO", "OXOXO", "OOOOO"],
        &["a.b", "..."],
        &["#"],
    ];
    for text in texts {
        let cells = text.len() * text[0].len();
        let scanner = find_regions(grid(text));
        let sum: usize = scanner.regions().iter().map(|r| r.area()).sum();
        assert_eq!(sum, cells);
        for region in scanner.regions() {
            assert!(region.area() >= 1);
            assert!(region.perimeter() >= 1);
            assert!(region.visited);
        }
    }
}

#[test]
fn cells_that_are_no_letters_form_regions_too() {
    let found = areas_and_perimeters(&["a.b", "..."]);
    assert_eq!(found, vec![('a', 1, 4), ('.', 4, 10), ('b', 1, 4)]);
}

#[test]
fn same_letter_apart_gives_two_regions() {
    let found = areas_and_perimeters(&["ABA"]);
    assert_eq!(found, vec![('A', 1, 4), ('B', 1, 4), ('A', 1, 4)]);
}

#[test]
fn diagonal_neighbours_are_not_connected() {
    let found = areas_and_perimeters(&["AB", "BA"]);
    assert_eq!(found.len(), 4);
}

#[test]
fn empty_grid_has_no_region() {
    let scanner = find_regions(Grid::new(Vec::new()).unwrap());
    assert_eq!(scanner.processing_state(), ProcessingState::Complete);
    assert_eq!(scanner.regions().len(), 0);
    assert_eq!(scanner.total_score(), 0);
}

#[test]
fn scan_of_one_cell_takes_eight_steps() {
    let mut scanner = RegionScanner::new(grid(&["A"]));
    assert_eq!(scanner.processing_state(), ProcessingState::Scanning);
    scanner.process_next_step();
    assert_eq!(scanner.processing_state(), ProcessingState::FloodFilling);
    assert_eq!(scanner.regions().len(), 1);
    assert_eq!(scanner.current_area(), Some(0));
    scanner.process_next_step();
    assert_eq!(scanner.processing_state(), ProcessingState::Fencing);
    assert_eq!(scanner.current_area(), None);
    scanner.process_next_step();
    assert_eq!(scanner.current_area(), Some(0));
    assert_eq!(scanner.step_count(), 0);
    for taken in 1..=4 {
        scanner.process_next_step();
        assert_eq!(scanner.step_count(), taken);
        assert_eq!(scanner.total_score(), taken);
        assert_eq!(scanner.processing_state(), ProcessingState::Fencing);
    }
    assert!(scanner.regions()[0].visited);
    scanner.process_next_step();
    assert_eq!(scanner.processing_state(), ProcessingState::Complete);
    scanner.process_next_step();
    assert_eq!(scanner.processing_state(), ProcessingState::Complete);
    assert_eq!(scanner.total_score(), 4);
}

#[test]
fn region_grows_by_one_cell_with_each_step() {
    let mut scanner = RegionScanner::new(grid(&["AA", "AB"]));
    scanner.process_next_step();
    assert_eq!(scanner.regions()[0].cells, vec![Coord { row: 0, col: 0 }]);
    scanner.process_next_step();
    assert_eq!(scanner.regions()[0].cells, vec![Coord { row: 0, col: 0 }, Coord { row: 0, col: 1 }]);
    assert_eq!(scanner.cursor_pos(), Coord { row: 0, col: 1 });
    scanner.process_next_step();
    assert_eq!(scanner.regions()[0].area(), 3);
    assert_eq!(scanner.regions()[0].cells[2], Coord { row: 1, col: 0 });
    scanner.process_next_step();
    assert_eq!(scanner.processing_state(), ProcessingState::Scanning);
    assert_eq!(scanner.label_at(1, 0), Some(0));
    assert_eq!(scanner.label_at(1, 1), None);
    assert_eq!(scanner.label_at(2, 0), None);
}

#[test]
fn run_steps_stops_at_the_limit() {
    let mut scanner = RegionScanner::new(grid(&["AAAA", "BBCD", "BBCC", "EEEC"]));
    scanner.run_steps(3);
    assert_ne!(scanner.processing_state(), ProcessingState::Complete);
    scanner.run_steps(10_000);
    assert_eq!(scanner.processing_state(), ProcessingState::Complete);
    assert_eq!(scanner.total_score(), 140);
}

#[test]
fn restart_forgets_the_regions() {
    let mut scanner = find_regions(grid(&["AB"]));
    assert_eq!(scanner.regions().len(), 2);
    scanner.restart();
    assert_eq!(scanner.regions().len(), 0);
    assert_eq!(scanner.processing_state(), ProcessingState::Scanning);
    assert_eq!(scanner.total_score(), 0);
    scanner.run();
    assert_eq!(scanner.total_score(), 8);
}

#[test]
fn fence_is_needed_at_the_edge_and_towards_other_regions() {
    let scanner = find_regions(grid(&["AAB"]));
    let left = Coord { row: 0, col: 0 };
    let middle = Coord { row: 0, col: 1 };
    assert!(scanner.needs_fence(left, Direction::North, 0));
    assert!(scanner.needs_fence(left, Direction::West, 0));
    assert!(!scanner.needs_fence(left, Direction::East, 0));
    assert!(scanner.needs_fence(middle, Direction::East, 0));
    assert!(!scanner.needs_fence(middle, Direction::East, 1));
    assert!(!scanner.needs_fence(Coord { row: 3, col: 0 }, Direction::East, 0));
    assert!(scanner.is_adjacent_to_other_group(left, 1));
    assert!(!scanner.is_adjacent_to_other_group(left, 0));
    assert!(!scanner.is_adjacent_to_other_group(Coord { row: 1, col: 0 }, 0));
}

#[test]
fn try_new_accepts_small_grids() {
    assert!(RegionScanner::fits(&grid(&["AB", "CD"])));
    assert!(RegionScanner::try_new(grid(&["AB", "CD"])).is_some());
}

#[test]
fn adjacency_to_a_list_of_cells() {
    let cells = vec![Coord { row: 2, col: 2 }, Coord { row: 0, col: 0 }];
    assert!(is_adjacent_to_area(&cells, Coord { row: 2, col: 3 }));
    assert!(is_adjacent_to_area(&cells, Coord { row: 1, col: 2 }));
    assert!(is_adjacent_to_area(&cells, Coord { row: 1, col: 0 }));
    assert!(!is_adjacent_to_area(&cells, Coord { row: 2, col: 2 }));
    assert!(!is_adjacent_to_area(&cells, Coord { row: 1, col: 1 }));
    assert!(!is_adjacent_to_area(&Vec::new(), Coord { row: 1, col: 1 }));
}

#[test]
fn region_colors_are_neither_dark_nor_light() {
    for _ in 0..200 {
        let color = generate_distinct_color();
        assert!((50..200).contains(&color.r));
        assert!((50..200).contains(&color.g));
        assert!((50..200).contains(&color.b));
    }
    let parts: Vec<u8> = (0..64).map(|_| generate_distinct_color().r).collect();
    assert!(parts.iter().any(|p| *p != parts[0]));
}

#[test]
fn same_grid_gives_same_regions() {
    let text = ["AAAA", "BBCD", "BBCC", "EEEC"];
    assert_eq!(areas_and_perimeters(&text), areas_and_perimeters(&text));
}
