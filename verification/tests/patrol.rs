use grid_puzzles::direction::Direction;
use grid_puzzles::grid::{Coord, Grid, GridError};
use grid_puzzles::patrol::{
    count_loop_placements, get_guard_locations, Agent, Outcome, PatrolSimulator, LOOP_THRESHOLD,
};

fn grid(text: &[&str]) -> Grid {
    Grid::new(text.iter().map(|line| line.to_string()).collect()).unwrap()
}

const SAMPLE: [&str; 10] = [
    "....#.....",
    ".........#",
    "..........",
    "..#.......",
    ".......#..",
    "..........",
    ".#..^.....",
    "........#.",
    "#.........",
    "......#...",
];

#[test]
fn agents_are_found_in_row_major_order() {
    let board = grid(&["..>..", ".v.^.", "<...."]);
    let agents = get_guard_locations(&board);
    assert_eq!(
        agents,
        vec![
            Agent { position: Coord { row: 0, col: 2 }, heading: Direction::East },
            Agent { position: Coord { row: 1, col: 1 }, heading: Direction::South },
            Agent { position: Coord { row: 1, col: 3 }, heading: Direction::North },
            Agent { position: Coord { row: 2, col: 0 }, heading: Direction::West },
        ]
    );
}

#[test]
fn unknown_marker_is_refused() {
    let board = grid(&["..^..", "..?.."]);
    assert!(matches!(PatrolSimulator::new(&board), Err(GridError::InvalidCharacter)));
    assert_eq!(count_loop_placements(&board, 10), Err(GridError::InvalidCharacter));
}

#[test]
fn agent_on_open_grid_leaves_after_distance_to_edge() {
    let board = grid(&["..>..", "....."]);
    let mut sim = PatrolSimulator::new(&board).unwrap();
    assert_eq!(sim.outcome(), Outcome::Unfinished);
    sim.move_guard();
    assert_eq!(sim.outcome(), Outcome::Unfinished);
    assert_eq!(sim.count_guard_positions(), 1);
    sim.move_guard();
    assert_eq!(sim.outcome(), Outcome::Unfinished);
    assert_eq!(sim.count_guard_positions(), 2);
    sim.move_guard();
    assert_eq!(sim.outcome(), Outcome::Exited);
    assert_eq!(sim.count_guard_positions(), 2);
    assert_eq!(
        sim.get_all_traversed_guard_positions(),
        vec![Coord { row: 0, col: 2 }, Coord { row: 0, col: 3 }]
    );
}

#[test]
fn agent_at_the_edge_facing_out_leaves_at_once() {
    let board = grid(&["^...", "...."]);
    let mut sim = PatrolSimulator::new(&board).unwrap();
    sim.move_guard();
    assert_eq!(sim.outcome(), Outcome::Exited);
    assert_eq!(sim.count_guard_positions(), 0);
}

#[test]
fn visited_count_never_goes_down() {
    let board = grid(&SAMPLE);
    let mut sim = PatrolSimulator::new(&board).unwrap();
    let mut last = sim.count_guard_positions();
    for _ in 0..60 {
        sim.move_guard();
        let now = sim.count_guard_positions();
        assert!(now >= last);
        assert!(now <= 100);
        last = now;
    }
    assert_eq!(sim.outcome(), Outcome::Exited);
}

#[test]
fn sample_patrol_leaves_forty_cells() {
    let board = grid(&SAMPLE);
    let mut sim = PatrolSimulator::new(&board).unwrap();
    assert_eq!(sim.run(54), Outcome::Unfinished);
    assert_eq!(sim.run(1), Outcome::Exited);
    assert_eq!(sim.count_guard_positions(), 40);
    assert_eq!(sim.run(10), Outcome::Exited);
    assert_eq!(sim.count_guard_positions(), 40);
}

#[test]
fn boxed_in_agent_is_a_loop() {
    let board = grid(&[".#.", "#^#", ".#."]);
    let mut sim = PatrolSimulator::new(&board).unwrap();
    for _ in 0..LOOP_THRESHOLD {
        sim.move_guard();
        assert_eq!(sim.outcome(), Outcome::Unfinished);
    }
    sim.move_guard();
    assert_eq!(sim.outcome(), Outcome::LoopDetected(Coord { row: 1, col: 1 }));
    assert_eq!(sim.count_guard_positions(), 0);
    sim.move_guard();
    assert_eq!(sim.outcome(), Outcome::LoopDetected(Coord { row: 1, col: 1 }));
}

#[test]
fn run_stops_at_a_loop() {
    let board = grid(&[".#.", "#^#", ".#."]);
    let mut sim = PatrolSimulator::new(&board).unwrap();
    assert_eq!(sim.run(1000), Outcome::LoopDetected(Coord { row: 1, col: 1 }));
}

#[test]
fn a_move_resets_the_counter() {
    let board = grid(&[".#...", "....#", "#^...", "...#."]);
    let mut sim = PatrolSimulator::new(&board).unwrap();
    assert_eq!(sim.run(500), Outcome::Unfinished);
    assert_eq!(sim.count_guard_positions(), 6);
}

#[test]
fn marked_cells_count_as_visited_from_the_start() {
    let board = grid(&["X.>.", "..X."]);
    let mut sim = PatrolSimulator::new(&board).unwrap();
    assert_eq!(sim.count_guard_positions(), 2);
    assert_eq!(sim.run(10), Outcome::Exited);
    assert_eq!(sim.count_guard_positions(), 3);
}

#[test]
fn two_agents_move_in_order() {
    let board = grid(&["..<..", "..^.."]);
    let mut sim = PatrolSimulator::new(&board).unwrap();
    assert_eq!(sim.run(3), Outcome::Exited);
    assert_eq!(
        sim.get_all_traversed_guard_positions(),
        vec![Coord { row: 0, col: 1 }, Coord { row: 0, col: 2 }, Coord { row: 1, col: 2 }]
    );
}

#[test]
fn obstacle_that_boxes_the_agent_in_is_a_loop_placement() {
    let board = grid(&[".#.", "#^.", ".#."]);
    assert_eq!(count_loop_placements(&board, 100), Ok(0));
    let board = grid(&["..#..", ".#^..", "..#.."]);
    assert_eq!(count_loop_placements(&board, 100), Ok(1));
    let board = grid(&[".#..", "#.<.", ".#.."]);
    assert_eq!(count_loop_placements(&board, 100), Ok(0));
}

#[test]
fn sample_has_no_placement_that_boxes_the_agent_in() {
    let board = grid(&SAMPLE);
    assert_eq!(count_loop_placements(&board, 200), Ok(0));
}

#[test]
fn same_grid_gives_same_patrol() {
    let board = grid(&SAMPLE);
    let mut first = PatrolSimulator::new(&board).unwrap();
    let mut second = PatrolSimulator::new(&board).unwrap();
    assert_eq!(first.run(100), second.run(100));
    assert_eq!(
        first.get_all_traversed_guard_positions(),
        second.get_all_traversed_guard_positions()
    );
}
