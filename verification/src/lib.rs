//! Verified solvers for small puzzles: searches on rectangular character
//! grids (words, trails of rising digits, regions and their fences, patrols,
//! antennas) and puzzles on lists of numbers.

pub mod cell_set;
pub mod direction;
pub mod grid;
pub mod numbers;
pub mod text;

pub mod antennas;
pub mod patrol;
pub mod patrol_laws;
pub mod region_laws;
pub mod region_proofs;
pub mod region_scan;
pub mod regions;
pub mod trail_proofs;
pub mod trails;
pub mod word_search;

pub mod calibration;
pub mod disk;
pub mod instructions;
pub mod lists;
pub mod page_order;
pub mod reports;
pub mod stones;
