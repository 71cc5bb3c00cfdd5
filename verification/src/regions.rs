//! Regions: the maximal groups of orthogonally connected cells that hold the
//! same character, with their area and their fence.

use crate::direction::Direction;
use crate::grid::{cell_is, in_bounds, scanned_before, Coord};
use crate::trails::adjacent;
use rand::rngs::ThreadRng;
use rand::Rng;
use vstd::prelude::*;

verus! {

/// The random number generator of the current thread, as `rand` hands it out.
#[verifier::external_type_specification]
#[verifier::external_body]
pub struct ExThreadRng(ThreadRng);

/// `rand::thread_rng` hands out the generator of the current thread. Nothing
/// is claimed of it. It panics only where the operating system gives the
/// generator no seed.
pub assume_specification[ rand::thread_rng ]() -> (rng: ThreadRng)
;

/// `Rng::gen_range` on a half-open range of `u8`: the value lies in the range,
/// and nothing else is known of it. The call panics on an empty range, which
/// the precondition leaves out.
#[verifier::external_body]
fn random_in_range(rng: &mut ThreadRng, low: u8, high: u8) -> (value: u8)
    requires
        low < high,
    ensures
        low <= value < high,
{
    rng.gen_range(low..high)
}

/// A colour by its red, green and blue parts.
#[derive(Clone, Copy, Debug, PartialEq, Eq, Structural)]
pub struct Rgb {
    pub r: u8,
    pub g: u8,
    pub b: u8,
}

/// The parts of a region's colour are at least this.
pub const COLOR_LOW: u8 = 50;

/// The parts of a region's colour are below this.
pub const COLOR_HIGH: u8 = 200;

/// Whether a colour is one that a region can get: no part is very dark or very light.
pub open spec fn is_region_color(color: Rgb) -> bool {
    &&& COLOR_LOW <= color.r < COLOR_HIGH
    &&& COLOR_LOW <= color.g < COLOR_HIGH
    &&& COLOR_LOW <= color.b < COLOR_HIGH
}

/// A colour for a new region, each part drawn at random.
pub fn generate_distinct_color() -> (color: Rgb)
    ensures
        is_region_color(color),
{
    let mut rng = rand::thread_rng();
    let r = random_in_range(&mut rng, COLOR_LOW, COLOR_HIGH);
    let g = random_in_range(&mut rng, COLOR_LOW, COLOR_HIGH);
    let b = random_in_range(&mut rng, COLOR_LOW, COLOR_HIGH);
    Rgb { r, g, b }
}

/// A group of connected cells that hold the same character.
pub struct Region {
    /// The number of the region, counted in the order in which regions are found.
    pub label: usize,
    /// The character that all its cells hold.
    pub member: char,
    /// The colour in which it is shown.
    pub color: Rgb,
    /// Its cells, in the order in which they were found.
    pub cells: Vec<Coord>,
    /// Whether its fence is complete.
    pub visited: bool,
    /// The sides of its cells that lie on its boundary.
    pub perimeter_segments: Vec<(Coord, Direction)>,
}

/// The phases of a scan.
#[derive(Clone, Copy, Debug, PartialEq, Eq, Structural)]
pub enum ProcessingState {
    /// Going through the grid in row-major order, looking for a cell without a region.
    Scanning,
    /// Growing the newest region, one cell with each step.
    FloodFilling,
    /// Going round the cells of each region and fencing its boundary.
    Fencing,
    /// Nothing is left to do.
    Complete,
}

/// The direction with the number `i` in the order in which a cell is fenced:
/// north, east, south, west.
pub open spec fn fence_dir(i: int) -> Direction {
    if i == 0 {
        Direction::North
    } else if i == 1 {
        Direction::East
    } else if i == 2 {
        Direction::South
    } else {
        Direction::West
    }
}

/// The number of a direction in the order in which a cell is fenced.
pub open spec fn fence_dir_index(d: Direction) -> int {
    match d {
        Direction::North => 0,
        Direction::East => 1,
        Direction::South => 2,
        Direction::West => 3,
    }
}

/// The labels have the shape of the grid.
pub open spec fn labels_fit(g: Seq<Seq<char>>, lab: Seq<Seq<Option<usize>>>) -> bool {
    &&& lab.len() == g.len()
    &&& forall|r: int| 0 <= r < g.len() ==> (#[trigger] lab[r]).len() == g[r].len()
}

/// Cell `k` of region `i` is a cell of the grid that holds the region's
/// character and carries the region's label.
pub open spec fn cell_ok(
    g: Seq<Seq<char>>,
    lab: Seq<Seq<Option<usize>>>,
    regions: Seq<Region>,
    i: int,
    k: int,
) -> bool {
    let p = regions[i].cells@[k];
    cell_is(g, p.row as int, p.col as int, regions[i].member) && lab[p.row as int][p.col as int] == Some(
        i as usize,
    )
}

/// Cell `k` of `cells` is an orthogonal neighbour of a cell before it.
pub open spec fn attached(cells: Seq<Coord>, k: int) -> bool {
    exists|j: int| 0 <= j < k && #[trigger] adjacent(cells[j], cells[k])
}

/// Region `i` is a list without repetitions of at least one cell, each of them
/// a cell of the grid with the region's character and label, and each but
/// the first a neighbour of a cell before it.
pub open spec fn region_ok(
    g: Seq<Seq<char>>,
    lab: Seq<Seq<Option<usize>>>,
    regions: Seq<Region>,
    i: int,
) -> bool {
    &&& regions[i].label == i
    &&& regions[i].cells@.len() >= 1
    &&& regions[i].cells@.no_duplicates()
    &&& forall|k: int| 0 <= k < regions[i].cells@.len() ==> #[trigger] cell_ok(g, lab, regions, i, k)
    &&& forall|k: int| 1 <= k < regions[i].cells@.len() ==> #[trigger] attached(regions[i].cells@, k)
}

/// Every region is in order.
pub open spec fn regions_ok(g: Seq<Seq<char>>, lab: Seq<Seq<Option<usize>>>, regions: Seq<Region>) -> bool {
    forall|i: int| 0 <= i < regions.len() ==> #[trigger] region_ok(g, lab, regions, i)
}

/// The cell `(r, c)` carries no label, or that of a region which lists the cell.
pub open spec fn label_listed(lab: Seq<Seq<Option<usize>>>, regions: Seq<Region>, r: int, c: int) -> bool {
    lab[r][c] matches Some(i) ==> i < regions.len() && regions[i as int].cells@.contains(
        Coord { row: r as usize, col: c as usize },
    )
}

/// Every label on the grid is that of a region which lists the cell.
pub open spec fn labels_listed(
    g: Seq<Seq<char>>,
    lab: Seq<Seq<Option<usize>>>,
    regions: Seq<Region>,
) -> bool {
    forall|r: int, c: int| in_bounds(g, r, c) ==> #[trigger] label_listed(lab, regions, r, c)
}

/// The neighbour of `(r, c)` in the direction `d`, where it is a cell with the
/// same character, carries the same label.
pub open spec fn closed_at(
    g: Seq<Seq<char>>,
    lab: Seq<Seq<Option<usize>>>,
    r: int,
    c: int,
    d: Direction,
) -> bool {
    let nr = r + d.d_row();
    let nc = c + d.d_col();
    in_bounds(g, nr, nc) && g[nr][nc] == g[r][c] ==> lab[nr][nc] == lab[r][c]
}

/// Each neighbour of `(r, c)` with the same character carries the same label.
pub open spec fn closed_cell(g: Seq<Seq<char>>, lab: Seq<Seq<Option<usize>>>, r: int, c: int) -> bool {
    &&& closed_at(g, lab, r, c, Direction::North)
    &&& closed_at(g, lab, r, c, Direction::East)
    &&& closed_at(g, lab, r, c, Direction::South)
    &&& closed_at(g, lab, r, c, Direction::West)
}

/// The cell `(r, c)`, where its label is below `upto`, is closed.
pub open spec fn settled_at(
    g: Seq<Seq<char>>,
    lab: Seq<Seq<Option<usize>>>,
    upto: int,
    r: int,
    c: int,
) -> bool {
    lab[r][c] matches Some(i) ==> (i < upto ==> closed_cell(g, lab, r, c))
}

/// The regions with a label below `upto` are complete: no neighbour of theirs
/// with the same character lies outside them.
pub open spec fn settled(g: Seq<Seq<char>>, lab: Seq<Seq<Option<usize>>>, upto: int) -> bool {
    forall|r: int, c: int| in_bounds(g, r, c) ==> #[trigger] settled_at(g, lab, upto, r, c)
}

/// The first `f` cells of `cells` are closed.
pub open spec fn prefix_closed(
    g: Seq<Seq<char>>,
    lab: Seq<Seq<Option<usize>>>,
    cells: Seq<Coord>,
    f: int,
) -> bool {
    forall|k: int| 0 <= k < f ==> closed_cell(g, lab, (#[trigger] cells[k]).row as int, cells[k].col as int)
}

/// Whether the cell `(r, c)` carries a label.
pub open spec fn is_labeled(lab: Seq<Seq<Option<usize>>>, r: int, c: int) -> bool {
    lab[r][c] is Some
}

/// Every cell before `(row, col)` in row-major order carries a label.
pub open spec fn scanned_labeled(
    g: Seq<Seq<char>>,
    lab: Seq<Seq<Option<usize>>>,
    row: int,
    col: int,
) -> bool {
    forall|r: int, c: int|
        in_bounds(g, r, c) && scanned_before(r, c, row, col) ==> #[trigger] is_labeled(lab, r, c)
}

/// The cells that carry a label.
pub open spec fn labeled_cells(g: Seq<Seq<char>>, lab: Seq<Seq<Option<usize>>>) -> Set<Coord> {
    Set::new(|p: Coord| in_bounds(g, p.row as int, p.col as int) && is_labeled(lab, p.row as int, p.col as int))
}

/// The side of the cell `p` in the direction `d` lies on the boundary of the
/// cell's region: beyond it lies the edge of the grid or a cell of another region.
pub open spec fn is_edge(g: Seq<Seq<char>>, lab: Seq<Seq<Option<usize>>>, p: Coord, d: Direction) -> bool {
    let nr = p.row + d.d_row();
    let nc = p.col + d.d_col();
    !in_bounds(g, nr, nc) || lab[nr][nc] != lab[p.row as int][p.col as int]
}

/// The boundary sides of the first `k` cells of `cells`, and of cell `k` in
/// the first `dn` directions: by cell, and for each cell north, east, south, west.
pub open spec fn edges_upto(
    g: Seq<Seq<char>>,
    lab: Seq<Seq<Option<usize>>>,
    cells: Seq<Coord>,
    k: int,
    dn: int,
) -> Seq<(Coord, Direction)>
    decreases k, dn,
{
    if k < 0 || dn < 0 || (k == 0 && dn == 0) {
        Seq::empty()
    } else if dn == 0 {
        edges_upto(g, lab, cells, k - 1, 4)
    } else {
        let before = edges_upto(g, lab, cells, k, dn - 1);
        if is_edge(g, lab, cells[k], fence_dir(dn - 1)) {
            before.push((cells[k], fence_dir(dn - 1)))
        } else {
            before
        }
    }
}

/// All boundary sides of the cells of `cells`.
pub open spec fn edges_of(g: Seq<Seq<char>>, lab: Seq<Seq<Option<usize>>>, cells: Seq<Coord>) -> Seq<
    (Coord, Direction),
> {
    edges_upto(g, lab, cells, cells.len() as int, 0)
}

/// The cells of the first `n` regions, counted.
pub open spec fn cells_total(regions: Seq<Region>, n: int) -> nat
    decreases n,
{
    if n <= 0 {
        0
    } else {
        cells_total(regions, n - 1) + regions[n - 1].cells@.len()
    }
}

/// The fence segments of the first `n` regions, counted.
pub open spec fn fences_total(regions: Seq<Region>, n: int) -> nat
    decreases n,
{
    if n <= 0 {
        0
    } else {
        fences_total(regions, n - 1) + regions[n - 1].perimeter_segments@.len()
    }
}

/// The sum, over the first `n` regions, of area times perimeter.
pub open spec fn score_total(regions: Seq<Region>, n: int) -> nat
    decreases n,
{
    if n <= 0 {
        0
    } else {
        score_total(regions, n - 1) + regions[n - 1].cells@.len() * regions[n - 1].perimeter_segments@.len()
    }
}

impl Region {
    /// The number of cells.
    pub fn area(&self) -> (n: usize)
        ensures
            n == self.cells@.len(),
    {
        self.cells.len()
    }

    /// The number of fence segments.
    pub fn perimeter(&self) -> (n: usize)
        ensures
            n == self.perimeter_segments@.len(),
    {
        self.perimeter_segments.len()
    }

    /// Area times perimeter.
    pub fn score(&self) -> (n: usize)
        requires
            self.cells@.len() * self.perimeter_segments@.len() <= usize::MAX,
        ensures
            n == self.cells@.len() * self.perimeter_segments@.len(),
    {
        self.cells.len() * self.perimeter_segments.len()
    }
}

} // verus!
