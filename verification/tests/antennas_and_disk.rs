use grid_puzzles::antennas::{count_antinodes, find_antinodes};
use grid_puzzles::disk::{
    calcualte_file_checksum, calculate_checksum, compact_blocks, do_part_one, do_part_two,
    expand_blocks, move_files, parse_layout, read_disk_map, FileData, FreeSpace,
};
use grid_puzzles::grid::{Coord, Grid};

fn grid(text: &[&str]) -> Grid {
    Grid::new(text.iter().map(|line| line.to_string()).collect()).unwrap()
}

#[test]
fn antinodes_of_the_sample_map() {
    let map = [
        "............",
        "........0...",
        ".....0......",
        ".......0....",
        "....0.......",
        "......A.....",
        "............",
        "............",
        "........A...",
        ".........A..",
        "............",
        "............",
    ];
    assert_eq!(count_antinodes(&grid(&map)), 34);
}

#[test]
fn antinodes_of_three_antennas() {
    let map = [
        "T.........",
        "...T......",
        ".T........",
        "..........",
        "..........",
        "..........",
        "..........",
        "..........",
        "..........",
        "..........",
    ];
    let found = find_antinodes(&grid(&map));
    assert_eq!(found.count(), 9);
    assert!(found.contains(Coord { row: 0, col: 0 }));
    assert!(found.contains(Coord { row: 2, col: 6 }));
    assert!(found.contains(Coord { row: 3, col: 9 }));
    assert!(found.contains(Coord { row: 4, col: 2 }));
    assert!(found.contains(Coord { row: 6, col: 3 }));
    assert!(found.contains(Coord { row: 8, col: 4 }));
    assert!(!found.contains(Coord { row: 1, col: 1 }));
}

#[test]
fn lone_antennas_have_no_antinode() {
    assert_eq!(count_antinodes(&grid(&["a.b", ".c."])), 0);
    assert_eq!(count_antinodes(&grid(&["..."])), 0);
    assert_eq!(count_antinodes(&Grid::new(Vec::new()).unwrap()), 0);
}

#[test]
fn two_antennas_mark_their_line() {
    assert_eq!(count_antinodes(&grid(&[".a.a.."])), 3);
    assert_eq!(count_antinodes(&grid(&["a....", ".....", "..a.."])), 2);
    assert_eq!(count_antinodes(&grid(&["aa"])), 2);
    assert_eq!(count_antinodes(&grid(&["a.", ".a", ".."])), 2);
}

#[test]
fn layout_is_read_digit_by_digit() {
    assert_eq!(parse_layout("12345"), Some(vec![1, 2, 3, 4, 5]));
    assert_eq!(parse_layout(""), Some(Vec::new()));
    assert_eq!(parse_layout("12a45"), None);
    assert_eq!(parse_layout("12 45"), None);
}

#[test]
fn layout_expands_to_blocks() {
    assert_eq!(
        expand_blocks(&vec![1, 2, 3, 4, 5]),
        vec![0, -1, -1, 1, 1, 1, -1, -1, -1, -1, 2, 2, 2, 2, 2]
    );
    assert_eq!(expand_blocks(&vec![0, 2, 1]), vec![-1, -1, 1]);
    assert_eq!(expand_blocks(&Vec::new()), Vec::<i32>::new());
}

#[test]
fn blocks_move_into_the_first_gaps() {
    let mut blocks = vec![0, -1, -1, 1, 1, 1, -1, -1, -1, -1, 2, 2, 2, 2, 2];
    compact_blocks(&mut blocks);
    assert_eq!(blocks, vec![0, 2, 2, 1, 1, 1, 2, 2, 2, -1, -1, -1, -1, -1, -1]);
    let mut full = vec![3, 4];
    compact_blocks(&mut full);
    assert_eq!(full, vec![3, 4]);
    let mut free = vec![-1, -1];
    compact_blocks(&mut free);
    assert_eq!(free, vec![-1, -1]);
    let mut one = vec![-1, 7];
    compact_blocks(&mut one);
    assert_eq!(one, vec![7, -1]);
}

#[test]
fn checksum_of_blocks() {
    assert_eq!(calculate_checksum(&[0, 2, 2, 1, 1, 1, 2, 2, 2, -1, -1]), 60);
    assert_eq!(calculate_checksum(&[]), 0);
    assert_eq!(calculate_checksum(&[-1, 5, -1, 2]), 11);
}

#[test]
fn sample_disk_block_by_block() {
    let layout = parse_layout("2333133121414131402").unwrap();
    assert_eq!(do_part_one(&layout), 1928);
}

#[test]
fn sample_disk_file_by_file() {
    let layout = parse_layout("2333133121414131402").unwrap();
    assert_eq!(do_part_two(&layout), 2858);
}

#[test]
fn disk_map_lists_files_and_gaps() {
    let (files, free) = read_disk_map(&vec![1, 2, 3]);
    assert_eq!(
        files,
        vec![FileData { id: 0, length: 1, start: 0 }, FileData { id: 1, length: 3, start: 3 }]
    );
    assert_eq!(free, vec![FreeSpace { length: 2, start: 1 }]);
}

#[test]
fn file_moves_to_the_first_stretch_that_fits() {
    let mut files = vec![FileData { id: 2, length: 2, start: 10 }];
    let mut free = vec![
        FreeSpace { length: 1, start: 1 },
        FreeSpace { length: 3, start: 4 },
        FreeSpace { length: 2, start: 8 },
    ];
    move_files(&mut files, &mut free);
    assert_eq!(files, vec![FileData { id: 2, length: 2, start: 4 }]);
    assert_eq!(
        free,
        vec![
            FreeSpace { length: 1, start: 1 },
            FreeSpace { length: 1, start: 6 },
            FreeSpace { length: 2, start: 8 },
        ]
    );
}

#[test]
fn file_does_not_move_backwards() {
    let mut files = vec![
        FileData { id: 1, length: 2, start: 3 },
        FileData { id: 0, length: 2, start: 0 },
    ];
    let mut free = vec![FreeSpace { length: 2, start: 5 }, FreeSpace { length: 2, start: 1 }];
    move_files(&mut files, &mut free);
    assert_eq!(files[0], FileData { id: 1, length: 2, start: 3 });
    assert_eq!(files[1], FileData { id: 0, length: 2, start: 0 });
    assert_eq!(free.len(), 2);
}

#[test]
fn stretch_that_is_filled_goes() {
    let mut files = vec![FileData { id: 5, length: 2, start: 9 }];
    let mut free = vec![FreeSpace { length: 2, start: 1 }, FreeSpace { length: 4, start: 5 }];
    move_files(&mut files, &mut free);
    assert_eq!(files, vec![FileData { id: 5, length: 2, start: 1 }]);
    assert_eq!(free, vec![FreeSpace { length: 4, start: 5 }]);
}

#[test]
fn checksum_of_files() {
    let files = [
        FileData { id: 0, length: 2, start: 0 },
        FileData { id: 9, length: 2, start: 2 },
        FileData { id: 2, length: 1, start: 4 },
    ];
    assert_eq!(calcualte_file_checksum(&files), 9 * 2 + 9 * 3 + 2 * 4);
    assert_eq!(calcualte_file_checksum(&[]), 0);
}
