//! The scan that finds the regions of a grid and fences them, one step at a time.

use crate::cell_set::lemma_cells_len_bound;
use crate::direction::Direction;
use crate::grid::{in_bounds, is_addressable, is_rectangular, scanned_before, width_of, Coord, Grid};
use crate::region_proofs::{
    added, fenced, grown, lemma_all_labeled, lemma_cells_total_monotone, lemma_fill_done, lemma_region_added, lemma_region_grown,
    lemma_same_cells, lemma_side_closed, lemma_totals_fenced, lemma_totals_monotone, lemma_totals_same,
    lemma_unfenced_totals, same_cells, with_label,
};
use crate::regions::{
    cell_ok, cells_total, closed_at, closed_cell, edges_of, edges_upto, fence_dir, fence_dir_index,
    fences_total, generate_distinct_color, is_edge, is_labeled, is_region_color, labeled_cells,
    labels_fit, labels_listed, prefix_closed, region_ok, regions_ok, scanned_labeled, score_total,
    settled, ProcessingState, Region,
};
use crate::trails::adjacent;
use vstd::prelude::*;

verus! {

/// Whether the scores of a grid with the cells `g` fit in a `usize`: four times
/// the square of the number of cells does.
pub open spec fn score_fits(g: Seq<Seq<char>>) -> bool {
    4 * (g.len() * width_of(g)) * (g.len() * width_of(g)) <= usize::MAX
}

/// A scan of a grid for its regions. It goes through the cells in row-major
/// order; at a cell without a region it starts one and grows it until it is
/// complete; when all cells have a region it fences one region after the other.
pub struct RegionScanner {
    grid: Grid,
    labels: Vec<Vec<Option<usize>>>,
    regions: Vec<Region>,
    current_area: Option<usize>,
    fill_cursor: usize,
    current_row: usize,
    current_col: usize,
    scanned: usize,
    labeled: usize,
    area: usize,
    fence_index: usize,
    fence_heading: Direction,
    fenced_regions: usize,
    cells_fenced: usize,
    step_count: usize,
    total_score: usize,
    processing_state: ProcessingState,
    cursor_pos: Coord,
}

/// The neighbour of `p` in the direction `d`, where it is a cell with the
/// character of `p`, carries a label.
pub open spec fn side_checked(
    g: Seq<Seq<char>>,
    lab: Seq<Seq<Option<usize>>>,
    p: Coord,
    d: Direction,
) -> bool {
    let nr = p.row + d.d_row();
    let nc = p.col + d.d_col();
    in_bounds(g, nr, nc) && g[nr][nc] == g[p.row as int][p.col as int] ==> lab[nr][nc] is Some
}

/// The direction with the number `i` in the order in which a region grows:
/// east, south, west, north.
pub open spec fn grow_dir(i: int) -> Direction {
    if i == 0 {
        Direction::East
    } else if i == 1 {
        Direction::South
    } else if i == 2 {
        Direction::West
    } else {
        Direction::North
    }
}

/// A closed cell of a region has no open neighbour.
proof fn lemma_closed_not_open(
    g: Seq<Seq<char>>,
    lab: Seq<Seq<Option<usize>>>,
    regions: Seq<Region>,
    id: int,
    k: int,
    j: int,
)
    requires
        regions_ok(g, lab, regions),
        0 <= id < regions.len(),
        0 <= k < regions[id].cells@.len(),
        0 <= j < 4,
        closed_cell(g, lab, regions[id].cells@[k].row as int, regions[id].cells@[k].col as int),
    ensures
        !is_open(g, lab, regions[id].cells@[k], grow_dir(j)),
{
    let p = regions[id].cells@[k];
    assert(region_ok(g, lab, regions, id));
    assert(cell_ok(g, lab, regions, id, k));
    assert(closed_at(g, lab, p.row as int, p.col as int, grow_dir(j)));
}

/// The sum of area times perimeter over `regions`.
fn sum_scores(regions: &Vec<Region>) -> (total: usize)
    requires
        score_total(regions@, regions@.len() as int) <= usize::MAX,
    ensures
        total == score_total(regions@, regions@.len() as int),
{
    let mut total: usize = 0;
    let mut i: usize = 0;
    while i < regions.len()
        invariant
            i <= regions.len(),
            score_total(regions@, regions@.len() as int) <= usize::MAX,
            total == score_total(regions@, i as int),
        decreases regions.len() - i,
    {
        proof {
            lemma_totals_monotone(regions@, i as int + 1, regions@.len() as int);
        }
        let region = &regions[i];
        let score = region.cells.len() * region.perimeter_segments.len();
        total = total + score;
        i += 1;
    }
    total
}

fn grow_direction(i: usize) -> (d: Direction)
    requires
        i < 4,
    ensures
        d == grow_dir(i as int),
{
    if i == 0 {
        Direction::East
    } else if i == 1 {
        Direction::South
    } else if i == 2 {
        Direction::West
    } else {
        Direction::North
    }
}

/// How a cell is shown.
pub enum CellView {
    /// The scan has just turned to the cell.
    Cursor,
    /// The cell is in the region `label`, which has the colour `color`; the
    /// sides in `fences` have a fence segment.
    InRegion { label: usize, color: crate::regions::Rgb, fences: Vec<Direction> },
    /// The cell is in no region.
    Empty,
}

/// The sides of the cell `pos` among the first `n` fence segments, in their order.
pub open spec fn sides_at(segments: Seq<(Coord, Direction)>, pos: Coord, n: int) -> Seq<Direction>
    decreases n,
{
    if n <= 0 {
        Seq::empty()
    } else if segments[n - 1].0 == pos {
        sides_at(segments, pos, n - 1).push(segments[n - 1].1)
    } else {
        sides_at(segments, pos, n - 1)
    }
}

/// The position after `(r, c)` in row-major order; behind the last cell of a
/// row it is the first column of the next row.
pub open spec fn successor(g: Seq<Seq<char>>, r: int, c: int) -> (int, int) {
    if c + 1 >= width_of(g) {
        (r + 1, 0)
    } else {
        (r, c + 1)
    }
}

/// The neighbour of `p` in the direction `d` is a cell with the character of
/// `p` that carries no label.
pub open spec fn is_open(g: Seq<Seq<char>>, lab: Seq<Seq<Option<usize>>>, p: Coord, d: Direction) -> bool {
    let nr = p.row + d.d_row();
    let nc = p.col + d.d_col();
    in_bounds(g, nr, nc) && g[nr][nc] == g[p.row as int][p.col as int] && lab[nr][nc] is None
}

/// The neighbour of `p` in the direction `d`.
pub open spec fn target(p: Coord, d: Direction) -> Coord {
    Coord { row: (p.row + d.d_row()) as usize, col: (p.col + d.d_col()) as usize }
}

/// The candidate with the numbers `(k, j)`, cell `k` and direction `j`, comes
/// before the candidate `(from, di)`.
pub open spec fn asked_before(k: int, j: int, from: int, di: int) -> bool {
    0 <= j < 4 && ((0 <= k < from) || (k == from && j < di))
}

/// The neighbour of cell `from` in the direction with the number `di` is
/// the first open one: no neighbour of an earlier cell is open, and none of
/// this cell in an earlier direction.
pub open spec fn grows_at(
    g: Seq<Seq<char>>,
    lab: Seq<Seq<Option<usize>>>,
    cells: Seq<Coord>,
    from: int,
    di: int,
) -> bool {
    &&& 0 <= from < cells.len()
    &&& 0 <= di < 4
    &&& is_open(g, lab, cells[from], grow_dir(di))
    &&& forall|k: int, j: int| #[trigger]
        asked_before(k, j, from, di) ==> !is_open(g, lab, cells[k], grow_dir(j))
}

/// No cell of `cells` has an open neighbour.
pub open spec fn none_open(g: Seq<Seq<char>>, lab: Seq<Seq<Option<usize>>>, cells: Seq<Coord>) -> bool {
    forall|k: int, j: int| #[trigger]
        asked_before(k, j, cells.len() as int, 0) ==> !is_open(g, lab, cells[k], grow_dir(j))
}

/// What a step of the scan over the grid does: a cell without a label
/// becomes the one cell of a new region, which grows from then on; and the
/// scan position moves on.
pub open spec fn scan_effect(before: RegionScanner, after: RegionScanner) -> bool {
    let g = before.grid_view();
    let (r, c) = before.scan_position();
    let p = Coord { row: r as usize, col: c as usize };
    let n = before.regions_view().len() as int;
    &&& after.scan_position() == successor(g, r, c)
    &&& after.cursor() == (if successor(g, r, c).0 >= g.len() {
        Coord { row: 0, col: 0 }
    } else {
        Coord { row: successor(g, r, c).0 as usize, col: successor(g, r, c).1 as usize }
    })
    &&& if before.label_map()[r][c] is None {
        &&& added(g, before.regions_view(), after.regions_view(), p)
        &&& after.label_map() == with_label(before.label_map(), p, n as usize)
        &&& after.phase() == ProcessingState::FloodFilling
        &&& after.current() == Some(n as usize)
        &&& is_region_color(after.regions_view()[n].color)
        &&& !after.regions_view()[n].visited
        &&& after.regions_view()[n].perimeter_segments@.len() == 0
    } else {
        &&& after.regions_view() == before.regions_view()
        &&& after.label_map() == before.label_map()
        &&& after.current() is None
        &&& after.phase() == (if successor(g, r, c).0 >= g.len() {
            ProcessingState::Fencing
        } else {
            ProcessingState::Scanning
        })
    }
}

/// What a step of the growth of the newest region does: the first open
/// neighbour joins the region; where there is none the region is complete,
/// and the scan over the grid goes on, or the fencing begins.
pub open spec fn flood_effect(before: RegionScanner, after: RegionScanner) -> bool {
    let g = before.grid_view();
    let lab = before.label_map();
    let regions = before.regions_view();
    let id = regions.len() - 1;
    let cells = regions[id].cells@;
    &&& after.scan_position() == before.scan_position()
    &&& {
        ||| exists|from: int, di: int|
            {
                &&& #[trigger] grows_at(g, lab, cells, from, di)
                &&& grown(regions, after.regions_view(), id, target(cells[from], grow_dir(di)))
                &&& after.regions_view()[id].color == regions[id].color
                &&& after.label_map() == with_label(lab, target(cells[from], grow_dir(di)), id as usize)
                &&& after.phase() == ProcessingState::FloodFilling
                &&& after.current() == before.current()
                &&& after.cursor() == target(cells[from], grow_dir(di))
            }
        ||| {
            &&& none_open(g, lab, cells)
            &&& after.regions_view() == regions
            &&& after.label_map() == lab
            &&& after.cursor() == before.cursor()
            &&& after.current() is None
            &&& after.phase() == (if before.scan_position().0 >= g.len() {
                ProcessingState::Fencing
            } else {
                ProcessingState::Scanning
            })
        }
    }
}

/// What a step of the fencing does. Where no region is being fenced, the
/// first region without a fence is taken up, or the scan is complete. Else
/// the side that is next gets its segment where it lies on the boundary,
/// and the fencing moves on to the next side, the next cell, or, behind the
/// last side of the last cell, out of the region.
pub open spec fn fence_effect(before: RegionScanner, after: RegionScanner) -> bool {
    let g = before.grid_view();
    let lab = before.label_map();
    let regions = before.regions_view();
    &&& after.label_map() == lab
    &&& after.cursor() == before.cursor()
    &&& match before.current() {
        None => {
            &&& after.regions_view() == regions
            &&& after.fenced_count() == before.fenced_count()
            &&& after.fence_position() == (0int, Direction::North)
            &&& if before.fenced_count() < regions.len() {
                after.current() == Some(before.fenced_count() as usize) && after.phase()
                    == ProcessingState::Fencing
            } else {
                after.current() is None && after.phase() == ProcessingState::Complete
            }
        },
        Some(id) => {
            let (idx, dir) = before.fence_position();
            let seg = (regions[id as int].cells@[idx], dir);
            let last = dir == Direction::West && idx + 1 == regions[id as int].cells@.len();
            &&& same_cells(regions, after.regions_view())
            &&& forall|j: int|
                0 <= j < regions.len() && j != id ==> #[trigger] after.regions_view()[j] == regions[j]
            &&& after.regions_view()[id as int].color == regions[id as int].color
            &&& after.regions_view()[id as int].visited == last
            &&& after.regions_view()[id as int].perimeter_segments@ == (if is_edge(g, lab, seg.0, seg.1) {
                regions[id as int].perimeter_segments@.push(seg)
            } else {
                regions[id as int].perimeter_segments@
            })
            &&& after.phase() == ProcessingState::Fencing
            &&& after.current() == (if last {
                None
            } else {
                Some(id)
            })
            &&& after.fenced_count() == before.fenced_count() + (if last {
                1int
            } else {
                0int
            })
            &&& after.fence_position() == (if dir != Direction::West {
                (idx, dir.clockwise())
            } else if last {
                (0int, Direction::North)
            } else {
                (idx + 1, Direction::North)
            })
        },
    }
}

/// What one step does, by the phase in which it is taken. A complete scan
/// stays as it is.
pub open spec fn step_effect(before: RegionScanner, after: RegionScanner) -> bool {
    &&& after.grid_view() == before.grid_view()
    &&& match before.phase() {
        ProcessingState::Scanning => scan_effect(before, after),
        ProcessingState::FloodFilling => flood_effect(before, after),
        ProcessingState::Fencing => fence_effect(before, after),
        ProcessingState::Complete => after == before,
    }
}

/// `after` is what `n` steps make of `before`, none of them taken on a complete scan.
pub open spec fn steps_effect(before: RegionScanner, after: RegionScanner, n: nat) -> bool
    decreases n,
{
    if n == 0 {
        after == before
    } else {
        exists|mid: RegionScanner|
            steps_effect(before, mid, (n - 1) as nat) && mid.wf() && mid.phase()
                != ProcessingState::Complete && #[trigger] step_effect(mid, after)
    }
}

/// One step behind some steps is one step more.
pub proof fn lemma_one_more_step(before: RegionScanner, mid: RegionScanner, after: RegionScanner, n: nat)
    requires
        n >= 1,
        steps_effect(before, mid, (n - 1) as nat),
        mid.wf(),
        mid.phase() != ProcessingState::Complete,
        step_effect(mid, after),
    ensures
        steps_effect(before, after, n),
{
}

/// The scan has not taken a step: no cell has a label, there is no region
/// and no fence, and the scan over the grid begins with the first cell; on
/// a grid without cells the fencing begins at once.
pub open spec fn is_fresh(scanner: RegionScanner) -> bool {
    let g = scanner.grid_view();
    &&& scanner.regions_view().len() == 0
    &&& forall|r: int, c: int| in_bounds(g, r, c) ==> !#[trigger] is_labeled(scanner.label_map(), r, c)
    &&& scanner.scan_position() == (0int, 0int)
    &&& scanner.cursor() == (Coord { row: 0, col: 0 })
    &&& scanner.current() is None
    &&& scanner.fenced_count() == 0
    &&& scanner.fence_position() == (0int, Direction::North)
    &&& scanner.cells_labeled() == 0
    &&& scanner.fences_set() == 0
    &&& scanner.score() == 0
    &&& scanner.phase() == (if g.len() * width_of(g) == 0 {
        ProcessingState::Fencing
    } else {
        ProcessingState::Scanning
    })
}

impl RegionScanner {
    /// The place of the cell that the scan over the grid looks at next;
    /// behind the last cell it is the first column of the row below the grid.
    pub closed spec fn scan_position(&self) -> (int, int) {
        (self.current_row as int, self.current_col as int)
    }

    /// The number of the region that is growing or being fenced.
    pub closed spec fn current(&self) -> Option<usize> {
        self.current_area
    }

    /// The number of regions whose fence is complete.
    pub closed spec fn fenced_count(&self) -> nat {
        self.fenced_regions as nat
    }

    /// The number of the cell, in the region that is being fenced, and the
    /// side of it that the fencing looks at next.
    pub closed spec fn fence_position(&self) -> (int, Direction) {
        (self.fence_index as int, self.fence_heading)
    }

    /// The cells of the grid that is scanned.
    pub closed spec fn grid_view(&self) -> Seq<Seq<char>> {
        self.grid@
    }

    /// The label of each cell: the number of its region, once it has one.
    pub closed spec fn label_map(&self) -> Seq<Seq<Option<usize>>> {
        Seq::new(self.labels.len() as nat, |r: int| self.labels[r]@)
    }

    /// The regions found so far.
    pub closed spec fn regions_view(&self) -> Seq<Region> {
        self.regions@
    }

    /// The phase of the scan.
    pub closed spec fn phase(&self) -> ProcessingState {
        self.processing_state
    }

    /// The number of the fence direction that comes next, while a region is fenced.
    closed spec fn heading_index(&self) -> int {
        if self.current_area is Some {
            fence_dir_index(self.fence_heading)
        } else {
            0
        }
    }

    /// What holds in every phase.
    closed spec fn wf_base(&self) -> bool {
        &&& self.grid.wf()
        &&& labels_fit(self.grid@, self.label_map())
        &&& regions_ok(self.grid@, self.label_map(), self.regions@)
        &&& labels_listed(self.grid@, self.label_map(), self.regions@)
        &&& self.area == self.grid@.len() * width_of(self.grid@)
        &&& 4 * self.area * self.area <= usize::MAX
        &&& self.labeled == cells_total(self.regions@, self.regions@.len() as int)
        &&& labeled_cells(self.grid@, self.label_map()).finite()
        &&& labeled_cells(self.grid@, self.label_map()).len() == self.labeled
        &&& self.regions@.len() <= self.labeled <= self.area
        &&& self.scanned <= self.area
    }

    /// No region has a fence yet.
    closed spec fn unfenced(&self) -> bool {
        &&& forall|i: int|
            0 <= i < self.regions@.len() ==> (#[trigger] self.regions@[i]).perimeter_segments@.len() == 0
                && !self.regions@[i].visited
        &&& self.step_count == 0
        &&& self.total_score == 0
        &&& self.fenced_regions == 0
        &&& self.cells_fenced == 0
        &&& self.fence_index == 0
        &&& self.fence_heading == Direction::North
    }

    /// What holds while the grid is scanned and regions grow.
    closed spec fn wf_scan(&self) -> bool {
        &&& self.unfenced()
        &&& self.current_row <= self.grid@.len()
        &&& self.current_row < self.grid@.len() ==> self.current_col < width_of(self.grid@)
        &&& self.current_row == self.grid@.len() ==> self.current_col == 0
        &&& self.scanned == self.current_row * width_of(self.grid@) + self.current_col
        &&& scanned_labeled(
            self.grid@,
            self.label_map(),
            self.current_row as int,
            self.current_col as int,
        )
        &&& self.processing_state == ProcessingState::Scanning ==> {
            &&& self.current_area is None
            &&& self.current_row < self.grid@.len()
            &&& settled(self.grid@, self.label_map(), self.regions@.len() as int)
        }
        &&& self.processing_state == ProcessingState::FloodFilling ==> {
            &&& self.regions@.len() >= 1
            &&& self.current_area == Some((self.regions@.len() - 1) as usize)
            &&& self.fill_cursor <= self.regions@[self.regions@.len() - 1].cells@.len()
            &&& settled(self.grid@, self.label_map(), self.regions@.len() - 1)
            &&& prefix_closed(
                self.grid@,
                self.label_map(),
                self.regions@[self.regions@.len() - 1].cells@,
                self.fill_cursor as int,
            )
        }
    }

    /// The fence of region `i` is as far as the scan has come with it.
    closed spec fn fence_ok(&self, i: int) -> bool {
        let region = self.regions@[i];
        if i < self.fenced_regions {
            region.visited && region.perimeter_segments@ == edges_of(
                self.grid@,
                self.label_map(),
                region.cells@,
            )
        } else if i == self.fenced_regions && self.current_area is Some {
            !region.visited && region.perimeter_segments@ == edges_upto(
                self.grid@,
                self.label_map(),
                region.cells@,
                self.fence_index as int,
                fence_dir_index(self.fence_heading),
            )
        } else {
            !region.visited && region.perimeter_segments@.len() == 0
        }
    }

    /// What holds while the regions are fenced, and after.
    closed spec fn wf_fence(&self) -> bool {
        &&& scanned_labeled(self.grid@, self.label_map(), self.grid@.len() as int, 0)
        &&& self.labeled == self.area
        &&& settled(self.grid@, self.label_map(), self.regions@.len() as int)
        &&& self.fenced_regions <= self.regions@.len()
        &&& forall|i: int| 0 <= i < self.regions@.len() ==> #[trigger] self.fence_ok(i)
        &&& self.current_area matches Some(id) ==> {
            &&& id == self.fenced_regions
            &&& id < self.regions@.len()
            &&& self.fence_index < self.regions@[id as int].cells@.len()
        }
        &&& self.current_area is None ==> self.fence_index == 0 && self.fence_heading == Direction::North
        &&& self.cells_fenced == cells_total(self.regions@, self.fenced_regions as int) + self.fence_index
        &&& self.step_count == fences_total(self.regions@, self.regions@.len() as int)
        &&& self.total_score == score_total(self.regions@, self.regions@.len() as int)
        &&& self.step_count <= 4 * self.cells_fenced + self.heading_index()
        &&& self.total_score <= self.step_count * self.area
        &&& self.processing_state == ProcessingState::Complete ==> self.current_area is None
            && self.fenced_regions == self.regions@.len()
    }

    /// The scan is in order: its regions are lists of connected cells with one
    /// character each, no cell is in two of them, the regions that are no
    /// longer growing are complete, every cell that was scanned is in a
    /// region, and the fences are as far as the scan has come.
    pub closed spec fn wf(&self) -> bool {
        &&& self.wf_base()
        &&& match self.processing_state {
            ProcessingState::Scanning | ProcessingState::FloodFilling => self.wf_scan(),
            ProcessingState::Fencing | ProcessingState::Complete => self.wf_fence(),
        }
    }

    /// An upper bound on the steps that the scan still takes: every step but
    /// those of a completed scan brings it down.
    pub closed spec fn steps_left(&self) -> nat {
        match self.processing_state {
            ProcessingState::Scanning => (2 * (self.area - self.labeled) + (self.area - self.scanned) + 5
                * self.area + 2) as nat,
            ProcessingState::FloodFilling => (2 * (self.area - self.labeled) + (self.area - self.scanned)
                + 5 * self.area + 3) as nat,
            ProcessingState::Fencing => (4 * (self.labeled - self.cells_fenced) - self.heading_index() + (
            self.regions@.len() - self.fenced_regions) - (if self.current_area is Some {
                1int
            } else {
                0int
            }) + 1) as nat,
            ProcessingState::Complete => 0,
        }
    }

    /// Whether the scores of `grid` fit in a `usize`.
    pub fn fits(grid: &Grid) -> (b: bool)
        requires
            grid.wf(),
        ensures
            b == score_fits(grid@),
    {
        let h = grid.height();
        let w = grid.width();
        match h.checked_mul(w) {
            None => {
                proof {
                    let a = h * w;
                    assert(4 * a * a > usize::MAX) by (nonlinear_arith)
                        requires
                            a > usize::MAX,
                    ;
                }
                false
            },
            Some(a) => match a.checked_mul(a) {
                None => {
                    proof {
                        assert(4 * a * a == 4 * (a * a)) by (nonlinear_arith);
                    }
                    false
                },
                Some(sq) => {
                    proof {
                        assert(4 * a * a == 4 * (a * a)) by (nonlinear_arith);
                    }
                    sq <= usize::MAX / 4
                },
            },
        }
    }

    /// A scan of `grid` that has not taken a step yet.
    pub fn new(grid: Grid) -> (scanner: RegionScanner)
        requires
            grid.wf(),
            score_fits(grid@),
        ensures
            scanner.wf(),
            scanner.grid_view() == grid@,
            is_fresh(scanner),
    {
        let h = grid.height();
        let w = grid.width();
        proof {
            grid.lemma_wf_view();
            let a = h * w;
            assert(4 * a * a == 4 * (a * a)) by (nonlinear_arith);
            assert(a <= a * a) by (nonlinear_arith)
                requires
                    a >= 0,
            ;
            assert(h > 0 && w > 0 ==> h * w > 0) by (nonlinear_arith);
        }
        let area = h * w;
        let mut labels: Vec<Vec<Option<usize>>> = Vec::new();
        let mut r: usize = 0;
        while r < h
            invariant
                r <= h,
                labels.len() == r,
                forall|i: int| 0 <= i < r ==> (#[trigger] labels[i]).len() == w,
                forall|i: int, j: int| 0 <= i < r && 0 <= j < w ==> (#[trigger] labels[i][j]) is None,
            decreases h - r,
        {
            let mut row: Vec<Option<usize>> = Vec::new();
            let mut c: usize = 0;
            while c < w
                invariant
                    c <= w,
                    row.len() == c,
                    forall|j: int| 0 <= j < c ==> (#[trigger] row[j]) is None,
                decreases w - c,
            {
                row.push(None);
                c += 1;
            }
            labels.push(row);
            r += 1;
        }
        let processing_state = if area == 0 {
            ProcessingState::Fencing
        } else {
            ProcessingState::Scanning
        };
        let scanner = RegionScanner {
            grid,
            labels,
            regions: Vec::new(),
            current_area: None,
            fill_cursor: 0,
            current_row: 0,
            current_col: 0,
            scanned: 0,
            labeled: 0,
            area,
            fence_index: 0,
            fence_heading: Direction::North,
            fenced_regions: 0,
            cells_fenced: 0,
            step_count: 0,
            total_score: 0,
            processing_state,
            cursor_pos: Coord { row: 0, col: 0 },
        };
        proof {
            let g = scanner.grid@;
            let lab = scanner.label_map();
            assert(labeled_cells(g, lab) =~= Set::<Coord>::empty()) by {
                assert forall|p: Coord| !labeled_cells(g, lab).contains(p) by {
                    if in_bounds(g, p.row as int, p.col as int) {
                        assert(scanner.labels[p.row as int][p.col as int] is None);
                    }
                }
            }
            assert(scanner.wf_base());
            if area == 0 {
                assert forall|r: int, c: int| in_bounds(g, r, c) implies false by {
                    assert(g[r].len() == w);
                    assert(h * w > 0) by (nonlinear_arith)
                        requires
                            h > 0,
                            w > 0,
                    ;
                }
                assert(scanner.wf_fence());
            } else {
                assert(h > 0 && w > 0) by (nonlinear_arith)
                    requires
                        h * w != 0,
                        h >= 0,
                        w >= 0,
                ;
                assert forall|r: int, c: int| in_bounds(g, r, c) implies #[trigger] crate::regions::settled_at(
                    g,
                    lab,
                    0,
                    r,
                    c,
                ) by {
                    assert(scanner.labels[r][c] is None);
                }
                assert(scanner.unfenced());
                assert(scanner.scanned == scanner.current_row * width_of(g) + scanner.current_col) by {
                    assert(0 * width_of(g) == 0) by (nonlinear_arith);
                }
                assert(scanned_labeled(g, lab, 0, 0));
                assert(settled(g, lab, 0));
                assert(scanner.wf_scan());
            }
        }
        scanner
    }

    /// The position after `(row, col)` in row-major order; behind the last
    /// cell it is the first column of the row below the grid.
    closed spec fn next_position(&self) -> (int, int) {
        if self.current_col + 1 >= width_of(self.grid@) {
            (self.current_row + 1, 0)
        } else {
            (self.current_row as int, self.current_col + 1)
        }
    }

    /// Moves the scan position to the next cell in row-major order. Behind the
    /// last cell the cursor goes back to the first cell, and a scan that is
    /// not growing a region goes over to fencing.
    fn advance_position(&mut self)
        requires
            old(self).grid.wf(),
            old(self).current_row < old(self).grid@.len(),
            old(self).current_col < width_of(old(self).grid@),
            old(self).scanned < usize::MAX,
        ensures
            *final(self) == (RegionScanner {
                current_row: old(self).next_position().0 as usize,
                current_col: old(self).next_position().1 as usize,
                scanned: (old(self).scanned + 1) as usize,
                cursor_pos: if old(self).next_position().0 >= old(self).grid@.len() {
                    Coord { row: 0, col: 0 }
                } else {
                    Coord {
                        row: old(self).next_position().0 as usize,
                        col: old(self).next_position().1 as usize,
                    }
                },
                processing_state: if old(self).next_position().0 >= old(self).grid@.len() && old(
                    self,
                ).processing_state == ProcessingState::Scanning {
                    ProcessingState::Fencing
                } else {
                    old(self).processing_state
                },
                ..*old(self)
            }),
    {
        let h = self.grid.height();
        let w = self.grid.width();
        self.scanned = self.scanned + 1;
        self.current_col = self.current_col + 1;
        self.cursor_pos = Coord { row: self.current_row, col: self.current_col };
        if self.current_col >= w {
            self.current_col = 0;
            self.current_row = self.current_row + 1;
            self.cursor_pos = Coord { row: self.current_row, col: 0 };
            if self.current_row >= h {
                self.cursor_pos = Coord { row: 0, col: 0 };
                if self.processing_state == ProcessingState::Scanning {
                    self.processing_state = ProcessingState::Fencing;
                }
            }
        }
    }

    /// What holds when the last cell has got its label and no region grows.
    proof fn lemma_scan_done(&self)
        requires
            self.wf_base(),
            self.unfenced(),
            self.current_area is None,
            scanned_labeled(self.grid@, self.label_map(), self.grid@.len() as int, 0),
            settled(self.grid@, self.label_map(), self.regions@.len() as int),
            self.processing_state == ProcessingState::Fencing,
        ensures
            self.wf_fence(),
            self.labeled == self.area,
    {
        self.grid.lemma_wf_view();
        lemma_all_labeled(self.grid@, self.label_map());
        lemma_unfenced_totals(self.regions@, self.regions@.len() as int);
        assert forall|i: int| 0 <= i < self.regions@.len() implies #[trigger] self.fence_ok(i) by {
            assert(self.regions@[i].perimeter_segments@.len() == 0);
        }
        assert(cells_total(self.regions@, 0) == 0);
        assert(0 * self.area == 0) by (nonlinear_arith);
    }

    /// A step of the scan over the grid: a cell without a region gets a new
    /// one, which grows from the next step on; then the scan moves on.
    fn scan_step(&mut self)
        requires
            old(self).wf(),
            old(self).processing_state == ProcessingState::Scanning,
        ensures
            final(self).wf(),
            final(self).grid == old(self).grid,
            final(self).steps_left() < old(self).steps_left(),
            old(self).labeled <= final(self).labeled <= old(self).labeled + 1,
            final(self).step_count == old(self).step_count,
            scan_effect(*old(self), *final(self)),
    {
        let ghost g = self.grid@;
        let ghost lab = self.label_map();
        let ghost before = self.regions@;
        let pos = Coord { row: self.current_row, col: self.current_col };
        let h = self.grid.height();
        let w = self.grid.width();
        proof {
            self.grid.lemma_wf_view();
            assert(g[pos.row as int].len() == w);
            assert(lab[pos.row as int] == self.labels[pos.row as int]@);
            assert((self.current_row + 1) * w == self.current_row * w + w) by (nonlinear_arith);
            assert((self.current_row + 1) * w <= h * w) by (nonlinear_arith)
                requires
                    self.current_row + 1 <= h,
            ;
        }
        let unlabeled = self.labels[pos.row][pos.col].is_none();
        if unlabeled {
            proof {
                self.lemma_room_for(pos);
            }
            let color = generate_distinct_color();
            let group_id = self.regions.len();
            let member = self.grid.at(pos.row, pos.col);
            let mut cells: Vec<Coord> = Vec::new();
            cells.push(pos);
            self.regions.push(
                Region {
                    label: group_id,
                    member,
                    color,
                    cells,
                    visited: false,
                    perimeter_segments: Vec::new(),
                },
            );
            assert(self.regions@.len() == group_id + 1);
            assert(self.regions@[group_id as int].cells@ =~= seq![pos]);
            self.labels[pos.row][pos.col] = Some(group_id);
            assert(self.regions@.len() == group_id + 1);
            self.labeled = self.labeled + 1;
            self.current_area = Some(group_id);
            self.fill_cursor = 0;
            self.processing_state = ProcessingState::FloodFilling;
            proof {
                assert(self.label_map() =~= with_label(lab, pos, group_id));
                assert(self.regions@[group_id as int].cells@ =~= seq![pos]);
                assert(added(g, before, self.regions@, pos));
                lemma_region_added(g, lab, before, self.regions@, pos);
                self.labeled_cells_bound();
            }
        }
        let ghost lab2 = self.label_map();
        proof {
            assert(is_labeled(lab2, pos.row as int, pos.col as int));
            assert(scanned_labeled(g, lab2, pos.row as int, pos.col as int));
        }
        let ghost mid = *self;
        self.advance_position();
        proof {
            assert(self.label_map() == lab2);
            let (nr, nc) = mid.next_position();
            assert forall|r: int, c: int|
                in_bounds(g, r, c) && scanned_before(r, c, nr, nc) implies #[trigger] is_labeled(
                lab2,
                r,
                c,
            ) by {
                assert(g[r].len() == w);
                if r == pos.row && c == pos.col {
                } else {
                    assert(scanned_before(r, c, pos.row as int, pos.col as int));
                }
            }
            assert(self.wf_base());
            if self.processing_state == ProcessingState::Fencing {
                self.lemma_scan_done();
            } else {
                assert(self.wf_scan());
            }
        }
    }

    /// While a cell of the grid carries no label, the labeled cells are fewer
    /// than the grid has cells.
    proof fn lemma_room_for(&self, p: Coord)
        requires
            self.grid.wf(),
            self.area == self.grid@.len() * width_of(self.grid@),
            labeled_cells(self.grid@, self.label_map()).finite(),
            labeled_cells(self.grid@, self.label_map()).len() == self.labeled,
            in_bounds(self.grid@, p.row as int, p.col as int),
            !is_labeled(self.label_map(), p.row as int, p.col as int),
        ensures
            self.labeled < self.area,
    {
        self.grid.lemma_wf_view();
        let more = labeled_cells(self.grid@, self.label_map()).insert(p);
        assert forall|q: Coord| #[trigger] more.contains(q) implies q.row < self.grid@.len() && q.col
            < width_of(self.grid@) by {
            assert(self.grid@[q.row as int].len() == width_of(self.grid@));
        }
        lemma_cells_len_bound(more, self.grid@.len(), width_of(self.grid@));
    }

    /// The labeled cells are cells of the grid, so they are no more than the grid has.
    proof fn labeled_cells_bound(&self)
        requires
            self.grid.wf(),
            labeled_cells(self.grid@, self.label_map()).finite(),
        ensures
            labeled_cells(self.grid@, self.label_map()).len() <= self.grid@.len() * width_of(self.grid@),
    {
        self.grid.lemma_wf_view();
        assert forall|p: Coord| #[trigger]
            labeled_cells(self.grid@, self.label_map()).contains(p) implies p.row < self.grid@.len()
            && p.col < width_of(self.grid@) by {
            assert(self.grid@[p.row as int].len() == width_of(self.grid@));
        }
        lemma_cells_len_bound(labeled_cells(self.grid@, self.label_map()), self.grid@.len(), width_of(self.grid@));
    }

    /// A step of the growth of the newest region: the first cell that lies
    /// next to a cell of the region, holds its character and has no region
    /// yet, joins it; the cells of the region are asked in their order, and
    /// for each its neighbours east, south, west and north. Where there is no
    /// such cell the region is complete, and the scan over the grid goes on.
    fn flood_step(&mut self)
        requires
            old(self).wf(),
            old(self).processing_state == ProcessingState::FloodFilling,
        ensures
            final(self).wf(),
            final(self).grid == old(self).grid,
            final(self).steps_left() < old(self).steps_left(),
            old(self).labeled <= final(self).labeled <= old(self).labeled + 1,
            final(self).step_count == old(self).step_count,
            flood_effect(*old(self), *final(self)),
    {
        let ghost g = self.grid@;
        let id = self.regions.len() - 1;
        let member = self.regions[id].member;
        let h = self.grid.height();
        proof {
            self.grid.lemma_wf_view();
        }
        while self.fill_cursor < self.regions[id].cells.len()
            invariant
                self.wf(),
                self.processing_state == ProcessingState::FloodFilling,
                old(self).processing_state == ProcessingState::FloodFilling,
                self.grid == old(self).grid,
                g == self.grid@,
                is_rectangular(g),
                is_addressable(g),
                self.labeled == old(self).labeled,
                self.step_count == old(self).step_count,
                self.scanned == old(self).scanned,
                self.area == old(self).area,
                self.regions@ == old(self).regions@,
                self.label_map() == old(self).label_map(),
                self.current_area == old(self).current_area,
                self.current_row == old(self).current_row,
                self.current_col == old(self).current_col,
                self.cursor_pos == old(self).cursor_pos,
                id == self.regions@.len() - 1,
                member == self.regions@[id as int].member,
                h == g.len(),
            decreases self.regions@[id as int].cells@.len() - self.fill_cursor,
        {
            let ghost lab = self.label_map();
            let ghost before = self.regions@;
            let from = self.fill_cursor;
            let p = self.regions[id].cells[from];
            proof {
                assert(region_ok(g, lab, before, id as int));
                assert(cell_ok(g, lab, before, id as int, from as int));
            }
            let mut found: Option<Coord> = None;
            let mut di: usize = 0;
            while di < 4 && found.is_none()
                invariant
                    di <= 4,
                    self.wf(),
                    self.grid.wf(),
                    self.processing_state == ProcessingState::FloodFilling,
                    g == self.grid@,
                    lab == self.label_map(),
                    labels_fit(g, lab),
                    is_rectangular(g),
                    is_addressable(g),
                    in_bounds(g, p.row as int, p.col as int),
                    g[p.row as int][p.col as int] == member,
                    forall|j: int| 0 <= j < di ==> side_checked(g, lab, p, #[trigger] grow_dir(j)),
                    found matches Some(nb) ==> in_bounds(g, nb.row as int, nb.col as int)
                        && g[nb.row as int][nb.col as int] == member && lab[nb.row as int][nb.col as int]
                        is None && adjacent(p, nb) && di < 4 && nb == target(p, grow_dir(di as int))
                        && is_open(g, lab, p, grow_dir(di as int)),
                decreases 4 - di + (if found is None { 1int } else { 0int }),
            {
                let d = grow_direction(di);
                let (d_row, d_col) = d.offset();
                let stepped = self.grid.step(p, d_row, d_col);
                let ghost nr = p.row + d.d_row();
                let ghost nc = p.col + d.d_col();
                if stepped.is_some() {
                    let nb = stepped.unwrap();
                    assert(in_bounds(g, nr, nc));
                    assert(nb.row == nr && nb.col == nc);
                    assert(lab[nb.row as int] == self.labels[nb.row as int]@);
                    if self.grid.at(nb.row, nb.col) == member && self.labels[nb.row][nb.col].is_none() {
                        found = Some(nb);
                        assert(adjacent(p, nb));
                    } else {
                        assert(side_checked(g, lab, p, grow_dir(di as int)));
                    }
                } else {
                    assert(!in_bounds(g, nr, nc));
                    assert(side_checked(g, lab, p, grow_dir(di as int)));
                }
                if found.is_none() {
                    di = di + 1;
                }
            }
            if found.is_some() {
                let nb = found.unwrap();
                proof {
                    self.lemma_room_for(nb);
                }
                self.regions[id].cells.push(nb);
                self.labels[nb.row][nb.col] = Some(id);
                self.labeled = self.labeled + 1;
                self.cursor_pos = nb;
                proof {
                    assert(self.label_map() =~= with_label(lab, nb, id));
                    assert(grown(before, self.regions@, id as int, nb));
                    lemma_region_grown(g, lab, before, self.regions@, from as int, nb, from as int);
                    self.labeled_cells_bound();
                    assert(self.wf_base());
                    assert(self.wf_scan());
                    let cells = before[id as int].cells@;
                    assert forall|k: int, j: int| #[trigger]
                        asked_before(k, j, from as int, di as int) implies !is_open(
                        g,
                        lab,
                        cells[k],
                        grow_dir(j),
                    ) by {
                        if k < from {
                            lemma_closed_not_open(g, lab, before, id as int, k, j);
                        } else {
                            assert(side_checked(g, lab, p, grow_dir(j)));
                        }
                    }
                    assert(grows_at(g, lab, cells, from as int, di as int));
                }
                return ;
            } else {
                proof {
                    assert(side_checked(g, lab, p, grow_dir(0)));
                    assert(side_checked(g, lab, p, grow_dir(1)));
                    assert(side_checked(g, lab, p, grow_dir(2)));
                    assert(side_checked(g, lab, p, grow_dir(3)));
                    lemma_side_closed(g, lab, before, from as int, Direction::North);
                    lemma_side_closed(g, lab, before, from as int, Direction::East);
                    lemma_side_closed(g, lab, before, from as int, Direction::South);
                    lemma_side_closed(g, lab, before, from as int, Direction::West);
                    assert(closed_cell(g, lab, p.row as int, p.col as int));
                }
                self.fill_cursor = self.fill_cursor + 1;
            }
        }
        proof {
            lemma_fill_done(g, self.label_map(), self.regions@);
            let cells = self.regions@[id as int].cells@;
            assert forall|k: int, j: int| #[trigger]
                asked_before(k, j, cells.len() as int, 0) implies !is_open(
                g,
                self.label_map(),
                cells[k],
                grow_dir(j),
            ) by {
                lemma_closed_not_open(g, self.label_map(), self.regions@, id as int, k, j);
            }
        }
        self.current_area = None;
        if self.current_row >= h {
            self.processing_state = ProcessingState::Fencing;
            proof {
                self.lemma_scan_done();
            }
        } else {
            self.processing_state = ProcessingState::Scanning;
        }
    }

    /// Whether the side of `pos` in the direction `dir` gets a fence for the
    /// region `current_group`: `pos` is a cell of that region, and beyond the
    /// side lies the edge of the grid or a cell that is not of the region.
    pub fn needs_fence(&self, pos: Coord, dir: Direction, current_group: usize) -> (b: bool)
        requires
            self.wf(),
        ensures
            b == (in_bounds(self.grid_view(), pos.row as int, pos.col as int) && self.label_map()[pos.row as int][pos.col as int]
                == Some(current_group) && is_edge(self.grid_view(), self.label_map(), pos, dir)),
    {
        proof {
            self.grid.lemma_wf_view();
        }
        let h = self.grid.height();
        let w = self.grid.width();
        if !(pos.row < h && pos.col < w) {
            return false;
        }
        assert(self.grid@[pos.row as int].len() == w);
        assert(self.label_map()[pos.row as int] == self.labels[pos.row as int]@);
        let here = self.labels[pos.row][pos.col];
        if here != Some(current_group) {
            return false;
        }
        let (d_row, d_col) = dir.offset();
        let stepped = self.grid.step(pos, d_row, d_col);
        if stepped.is_some() {
            let next = stepped.unwrap();
            assert(self.label_map()[next.row as int] == self.labels[next.row as int]@);
            self.labels[next.row][next.col] != Some(current_group)
        } else {
            true
        }
    }

    /// The sum over all regions of area times perimeter.
    pub fn calculate_total_score(&self) -> (total: usize)
        requires
            self.wf(),
        ensures
            total == score_total(self.regions_view(), self.regions_view().len() as int),
    {
        proof {
            self.lemma_score_fits();
        }
        sum_scores(&self.regions)
    }

    /// The sum of all scores fits in a `usize`.
    proof fn lemma_score_fits(&self)
        requires
            self.wf(),
        ensures
            score_total(self.regions@, self.regions@.len() as int) <= usize::MAX,
    {
        match self.processing_state {
            ProcessingState::Scanning | ProcessingState::FloodFilling => {
                lemma_unfenced_totals(self.regions@, self.regions@.len() as int);
            },
            _ => {},
        }
    }

    /// A step of the fencing. Where no region is being fenced, the next
    /// region without a fence is taken up, and where there is none the scan
    /// is complete. Else one side of one cell of the region is looked at, and
    /// gets a fence segment where it needs one; the sides of a cell come in
    /// the order north, east, south, west, the cells in their order, and
    /// behind the last side of the last cell the region's fence is complete.
    pub fn fence_step(&mut self)
        requires
            old(self).wf(),
            old(self).phase() == ProcessingState::Fencing,
        ensures
            final(self).wf(),
            final(self).grid_view() == old(self).grid_view(),
            final(self).label_map() == old(self).label_map(),
            same_cells(old(self).regions_view(), final(self).regions_view()),
            final(self).steps_left() < old(self).steps_left(),
            final(self).cells_labeled() == old(self).cells_labeled(),
            old(self).fences_set() <= final(self).fences_set() <= old(self).fences_set() + 1,
            final(self).phase() == ProcessingState::Fencing || final(self).phase()
                == ProcessingState::Complete,
            fence_effect(*old(self), *final(self)),
    {
        let ghost g = self.grid@;
        let ghost lab = self.label_map();
        let ghost before = self.regions@;
        let n = self.regions.len();
        proof {
            self.grid.lemma_wf_view();
            lemma_cells_total_monotone(before, self.fenced_regions as int, n as int);
        }
        if self.current_area.is_none() {
            if self.fenced_regions < n {
                self.current_area = Some(self.fenced_regions);
                proof {
                    let id = self.fenced_regions as int;
                    assert(region_ok(g, lab, before, id));
                    assert(old(self).fence_ok(id));
                    assert(edges_upto(g, lab, before[id].cells@, 0, 0) =~= Seq::<(Coord, Direction)>::empty());
                    assert(before[id].perimeter_segments@ =~= Seq::<(Coord, Direction)>::empty());
                    assert(self.fence_index == 0 && self.fence_heading == Direction::North);
                    assert forall|i: int| 0 <= i < n implies #[trigger] self.fence_ok(i) by {
                        assert(old(self).fence_ok(i));
                    }
                    lemma_cells_total_monotone(before, id + 1, n as int);
                    assert(self.wf_fence());
                }
            } else {
                self.processing_state = ProcessingState::Complete;
                proof {
                    assert forall|i: int| 0 <= i < n implies #[trigger] self.fence_ok(i) by {
                        assert(old(self).fence_ok(i));
                    }
                    assert(self.wf_fence());
                }
            }
            return ;
        }
        let id = self.fenced_regions;
        let index = self.fence_index;
        let dir = self.fence_heading;
        let pos = self.regions[id].cells[index];
        let len = self.regions[id].cells.len();
        let ghost cells = before[id as int].cells@;
        let ghost didx = fence_dir_index(dir);
        proof {
            assert(region_ok(g, lab, before, id as int));
            assert(cell_ok(g, lab, before, id as int, index as int));
            assert(old(self).fence_ok(id as int));
            lemma_cells_total_monotone(before, id as int + 1, n as int);
            assert(cells_total(before, id as int + 1) == cells_total(before, id as int) + cells.len());
            assert(self.cells_fenced < self.labeled);
            assert(fence_dir(didx) == dir);
            assert(4 * (self.cells_fenced + 1) <= 4 * self.area);
            assert(4 * self.area <= 4 * self.area * self.area) by (nonlinear_arith)
                requires
                    self.area >= 1,
            ;
            assert(self.step_count * self.area + self.area == (self.step_count + 1) * self.area)
                by (nonlinear_arith);
            assert((self.step_count + 1) * self.area <= (4 * self.area) * self.area) by (nonlinear_arith)
                requires
                    self.step_count + 1 <= 4 * self.area,
            ;
            assert((4 * self.area) * self.area == 4 * self.area * self.area) by (nonlinear_arith);
        }
        if self.needs_fence(pos, dir, id) {
            self.regions[id].perimeter_segments.push((pos, dir));
            self.step_count = self.step_count + 1;
            proof {
                assert(fenced(before, self.regions@, id as int, (pos, dir)));
                lemma_totals_fenced(before, self.regions@, id as int, (pos, dir), n as int);
            }
            self.total_score = sum_scores(&self.regions);
        }
        let ghost mid = self.regions@;
        proof {
            assert(same_cells(before, mid));
            assert(mid[id as int].perimeter_segments@ == edges_upto(g, lab, cells, index as int, didx + 1));
        }
        match dir {
            Direction::North => {
                self.fence_heading = Direction::East;
            },
            Direction::East => {
                self.fence_heading = Direction::South;
            },
            Direction::South => {
                self.fence_heading = Direction::West;
            },
            Direction::West => {
                self.fence_heading = Direction::North;
                self.cells_fenced = self.cells_fenced + 1;
                if index + 1 < len {
                    self.fence_index = index + 1;
                } else {
                    self.regions[id].visited = true;
                    self.current_area = None;
                    self.fence_index = 0;
                    self.fenced_regions = id + 1;
                }
            },
        }
        proof {
            let after = self.regions@;
            assert(same_cells(before, after));
            lemma_same_cells(g, lab, before, after);
            lemma_totals_same(mid, after, n as int);
            assert(edges_upto(g, lab, cells, index as int + 1, 0) == edges_upto(g, lab, cells, index as int, 4));
            assert forall|i: int| 0 <= i < n implies #[trigger] self.fence_ok(i) by {
                assert(old(self).fence_ok(i));
                if i != id {
                    assert(after[i] == before[i]);
                }
            }
            assert(self.wf_base());
            assert(self.wf_fence());
        }
    }

    /// The number of cells that are in a region.
    pub closed spec fn cells_labeled(&self) -> nat {
        self.labeled as nat
    }

    /// The number of fence segments set.
    pub closed spec fn fences_set(&self) -> nat {
        self.step_count as nat
    }

    /// The score as it was last computed.
    pub closed spec fn score(&self) -> nat {
        self.total_score as nat
    }

    /// One step of the scan: of the scan over the grid, of the growth of a
    /// region, or of the fencing, as the phase says. A step brings at most
    /// one cell into a region and sets at most one fence segment, and it
    /// brings the scan nearer to its end. A complete scan stays as it is.
    pub fn process_next_step(&mut self)
        requires
            old(self).wf(),
        ensures
            final(self).wf(),
            final(self).grid_view() == old(self).grid_view(),
            old(self).phase() == ProcessingState::Complete ==> final(self).phase()
                == ProcessingState::Complete && final(self).regions_view() == old(self).regions_view()
                && final(self).label_map() == old(self).label_map(),
            old(self).phase() != ProcessingState::Complete ==> final(self).steps_left() < old(
                self,
            ).steps_left(),
            old(self).cells_labeled() <= final(self).cells_labeled() <= old(self).cells_labeled() + 1,
            old(self).fences_set() <= final(self).fences_set() <= old(self).fences_set() + 1,
            final(self).cells_labeled() + final(self).fences_set() <= old(self).cells_labeled() + old(
                self,
            ).fences_set() + 1,
            step_effect(*old(self), *final(self)),
    {
        match self.processing_state {
            ProcessingState::Scanning => {
                self.scan_step();
            },
            ProcessingState::FloodFilling => {
                self.flood_step();
            },
            ProcessingState::Fencing => {
                self.fence_step();
            },
            ProcessingState::Complete => {},
        }
    }

    /// Takes up to `steps` steps, and stops before that when the scan is complete.
    pub fn run_steps(&mut self, steps: usize)
        requires
            old(self).wf(),
        ensures
            final(self).wf(),
            final(self).grid_view() == old(self).grid_view(),
            steps >= old(self).steps_left() ==> final(self).phase() == ProcessingState::Complete,
            exists|n: nat|
                n <= steps && #[trigger] steps_effect(*old(self), *final(self), n) && (n == steps
                    || final(self).phase() == ProcessingState::Complete),
    {
        let mut left: usize = steps;
        let ghost mut taken: nat = 0;
        while left > 0 && self.processing_state != ProcessingState::Complete
            invariant
                self.wf(),
                self.grid_view() == old(self).grid_view(),
                steps >= old(self).steps_left() ==> left >= self.steps_left(),
                taken + left == steps,
                steps_effect(*old(self), *self, taken),
            decreases left,
        {
            let ghost mid = *self;
            self.process_next_step();
            left = left - 1;
            proof {
                taken = taken + 1;
                let before = *old(self);
                let now = *self;
                assert(steps_effect(before, mid, (taken - 1) as nat) && mid.wf() && mid.phase()
                    != ProcessingState::Complete && step_effect(mid, now));
                lemma_one_more_step(before, mid, now, taken);
            }
        }
        proof {
            assert(taken <= steps && steps_effect(*old(self), *self, taken) && (taken == steps
                || self.phase() == ProcessingState::Complete));
        }
        proof {
            if steps >= old(self).steps_left() && self.processing_state != ProcessingState::Complete {
                self.lemma_steps_left_positive();
            }
        }
    }

    /// While the scan is not complete, steps are left.
    proof fn lemma_steps_left_positive(&self)
        requires
            self.wf(),
            self.processing_state != ProcessingState::Complete,
        ensures
            self.steps_left() > 0,
    {
        if self.processing_state == ProcessingState::Fencing {
            lemma_cells_total_monotone(self.regions@, self.fenced_regions as int, self.regions@.len() as int);
            if self.current_area is Some {
                let id = self.fenced_regions as int;
                lemma_cells_total_monotone(self.regions@, id + 1, self.regions@.len() as int);
                assert(cells_total(self.regions@, id + 1) == cells_total(self.regions@, id)
                    + self.regions@[id].cells@.len());
            }
        }
    }

    /// Takes steps until the scan is complete.
    pub fn run(&mut self)
        requires
            old(self).wf(),
        ensures
            final(self).wf(),
            final(self).grid_view() == old(self).grid_view(),
            final(self).phase() == ProcessingState::Complete,
            exists|n: nat| #[trigger] steps_effect(*old(self), *final(self), n),
    {
        let ghost mut taken: nat = 0;
        while self.processing_state != ProcessingState::Complete
            invariant
                self.wf(),
                self.grid_view() == old(self).grid_view(),
                steps_effect(*old(self), *self, taken),
            decreases self.steps_left(),
        {
            let ghost mid = *self;
            self.process_next_step();
            proof {
                taken = taken + 1;
                let before = *old(self);
                let now = *self;
                assert(steps_effect(before, mid, (taken - 1) as nat) && mid.wf() && mid.phase()
                    != ProcessingState::Complete && step_effect(mid, now));
                lemma_one_more_step(before, mid, now, taken);
            }
        }
        proof {
            assert(steps_effect(*old(self), *self, taken));
        }
    }

    /// Starts the scan over on the same grid.
    pub fn restart(&mut self)
        requires
            old(self).wf(),
        ensures
            final(self).wf(),
            final(self).grid_view() == old(self).grid_view(),
            is_fresh(*final(self)),
    {
        let grid = self.grid.duplicate();
        proof {
            let a = self.grid@.len() * width_of(self.grid@);
            assert(4 * a * a == 4 * self.area * self.area);
        }
        *self = RegionScanner::new(grid);
    }

    /// A scan of `grid` that has not taken a step yet, or `None` where the
    /// scores of the grid may not fit in a `usize`.
    pub fn try_new(grid: Grid) -> (r: Option<RegionScanner>)
        requires
            grid.wf(),
        ensures
            score_fits(grid@) ==> r is Some,
            r matches Some(scanner) ==> score_fits(grid@) && scanner.wf() && scanner.grid_view() == grid@
                && is_fresh(scanner),
    {
        if RegionScanner::fits(&grid) {
            Some(RegionScanner::new(grid))
        } else {
            None
        }
    }

    /// The grid that is scanned.
    pub fn grid(&self) -> (grid: &Grid)
        ensures
            grid@ == self.grid_view(),
            self.wf() ==> grid.wf(),
    {
        &self.grid
    }

    /// The regions found so far.
    pub fn regions(&self) -> (regions: &Vec<Region>)
        ensures
            regions@ == self.regions_view(),
    {
        &self.regions
    }

    /// The phase of the scan.
    pub fn processing_state(&self) -> (state: ProcessingState)
        ensures
            state == self.phase(),
    {
        self.processing_state
    }

    /// The cell that the scan last turned to.
    pub fn cursor_pos(&self) -> (pos: Coord)
        ensures
            pos == self.cursor(),
    {
        self.cursor_pos
    }

    /// The number of the region that is growing or being fenced.
    pub fn current_area(&self) -> (id: Option<usize>)
        ensures
            id == self.current(),
    {
        self.current_area
    }

    /// The number of fence segments set so far.
    pub fn step_count(&self) -> (n: usize)
        ensures
            n == self.fences_set(),
    {
        self.step_count
    }

    /// The sum over all regions of area times perimeter, as far as the fences are set.
    pub fn total_score(&self) -> (n: usize)
        ensures
            n == self.score(),
    {
        self.total_score
    }

    /// The number of the region of the cell `(row, col)`, where it has one.
    pub fn label_at(&self, row: usize, col: usize) -> (label: Option<usize>)
        requires
            self.wf(),
        ensures
            in_bounds(self.grid_view(), row as int, col as int) ==> label == self.label_map()[row as int][col as int],
            !in_bounds(self.grid_view(), row as int, col as int) ==> label is None,
    {
        proof {
            self.grid.lemma_wf_view();
        }
        if row < self.grid.height() && col < self.grid.width() {
            assert(self.grid@[row as int].len() == self.grid.spec_width());
            assert(self.label_map()[row as int] == self.labels[row as int]@);
            self.labels[row][col]
        } else {
            None
        }
    }

    /// How the cell `(row, col)` is shown: as the cursor, where the scan has
    /// just turned to it and is not complete; else as a cell of its region,
    /// with the sides of the cell that have a fence segment, in the order in
    /// which they were fenced; else as a cell without a region.
    pub fn get_cell_color(&self, row: usize, col: usize) -> (shown: CellView)
        requires
            self.wf(),
        ensures
            shown is Cursor <==> (Coord { row, col } == self.cursor() && self.phase()
                != ProcessingState::Complete),
            shown is Empty <==> !(shown is Cursor) && !(in_bounds(self.grid_view(), row as int, col as int)
                && self.label_map()[row as int][col as int] is Some),
            shown matches CellView::InRegion { label, color, fences } ==> {
                &&& self.label_map()[row as int][col as int] == Some(label)
                &&& label < self.regions_view().len()
                &&& color == self.regions_view()[label as int].color
                &&& fences@ == sides_at(
                    self.regions_view()[label as int].perimeter_segments@,
                    Coord { row, col },
                    self.regions_view()[label as int].perimeter_segments@.len() as int,
                )
            },
    {
        let pos = Coord { row, col };
        if pos == self.cursor_pos && self.processing_state != ProcessingState::Complete {
            return CellView::Cursor;
        }
        match self.label_at(row, col) {
            None => CellView::Empty,
            Some(id) => {
                proof {
                    self.grid.lemma_wf_view();
                    assert(crate::regions::label_listed(
                        self.label_map(),
                        self.regions@,
                        row as int,
                        col as int,
                    ));
                }
                let region = &self.regions[id];
                let mut fences: Vec<Direction> = Vec::new();
                let mut i: usize = 0;
                while i < region.perimeter_segments.len()
                    invariant
                        i <= region.perimeter_segments@.len(),
                        fences@ == sides_at(region.perimeter_segments@, pos, i as int),
                    decreases region.perimeter_segments@.len() - i,
                {
                    let segment = region.perimeter_segments[i];
                    if segment.0 == pos {
                        fences.push(segment.1);
                    }
                    i += 1;
                }
                CellView::InRegion { label: id, color: region.color, fences }
            },
        }
    }

    /// The cell that the scan last turned to.
    pub closed spec fn cursor(&self) -> Coord {
        self.cursor_pos
    }

    /// Whether the cell `pos` carries the label of a region other than `current_group`.
    pub fn is_adjacent_to_other_group(&self, pos: Coord, current_group: usize) -> (b: bool)
        requires
            self.wf(),
        ensures
            b == (in_bounds(self.grid_view(), pos.row as int, pos.col as int) && self.label_map()[pos.row as int][pos.col as int]
                is Some && self.label_map()[pos.row as int][pos.col as int] != Some(current_group)),
    {
        let label = self.label_at(pos.row, pos.col);
        label.is_some() && label != Some(current_group)
    }

    /// What holds of the regions in every phase: the labels have the shape of
    /// the grid, each region is a list without repetitions of connected cells
    /// with the region's character and label, every label is that of a region
    /// which lists the cell, and the cells of all regions are as many as the
    /// cells with a label.
    pub proof fn lemma_regions_in_order(&self)
        requires
            self.wf(),
        ensures
            labels_fit(self.grid_view(), self.label_map()),
            regions_ok(self.grid_view(), self.label_map(), self.regions_view()),
            labels_listed(self.grid_view(), self.label_map(), self.regions_view()),
            cells_total(self.regions_view(), self.regions_view().len() as int) == self.cells_labeled(),
            labeled_cells(self.grid_view(), self.label_map()).len() == self.cells_labeled(),
            self.cells_labeled() <= self.grid_view().len() * width_of(self.grid_view()),
            fences_total(self.regions_view(), self.regions_view().len() as int) == self.fences_set(),
            score_total(self.regions_view(), self.regions_view().len() as int) == self.score(),
    {
        match self.processing_state {
            ProcessingState::Scanning | ProcessingState::FloodFilling => {
                lemma_unfenced_totals(self.regions@, self.regions@.len() as int);
            },
            _ => {},
        }
    }

    /// What holds of a complete scan: every cell of the grid is in a region;
    /// each region is complete, so that no neighbour of a cell with the same
    /// character lies in another region; the fence of each region is the
    /// list of its boundary sides, and has at least one segment; the areas
    /// add up to the number of cells of the grid; and the score is the sum
    /// over the regions of area times perimeter.
    pub proof fn lemma_complete(&self)
        requires
            self.wf(),
            self.phase() == ProcessingState::Complete,
        ensures
            forall|r: int, c: int|
                in_bounds(self.grid_view(), r, c) ==> #[trigger] is_labeled(self.label_map(), r, c),
            settled(self.grid_view(), self.label_map(), self.regions_view().len() as int),
            forall|i: int|
                0 <= i < self.regions_view().len() ==> {
                    let region = #[trigger] self.regions_view()[i];
                    &&& region.visited
                    &&& region.cells@.len() >= 1
                    &&& region.perimeter_segments@.len() >= 1
                    &&& region.perimeter_segments@ == edges_of(
                        self.grid_view(),
                        self.label_map(),
                        region.cells@,
                    )
                },
            cells_total(self.regions_view(), self.regions_view().len() as int) == self.grid_view().len()
                * width_of(self.grid_view()),
            score_total(self.regions_view(), self.regions_view().len() as int) == self.score(),
    {
        let g = self.grid@;
        let lab = self.label_map();
        self.grid.lemma_wf_view();
        assert forall|r: int, c: int| in_bounds(g, r, c) implies #[trigger] is_labeled(lab, r, c) by {
            assert(scanned_before(r, c, g.len() as int, 0));
        }
        assert forall|i: int| 0 <= i < self.regions@.len() implies {
            let region = #[trigger] self.regions@[i];
            &&& region.visited
            &&& region.cells@.len() >= 1
            &&& region.perimeter_segments@.len() >= 1
            &&& region.perimeter_segments@ == edges_of(g, lab, region.cells@)
        } by {
            assert(self.fence_ok(i));
            assert(region_ok(g, lab, self.regions@, i));
            crate::region_proofs::lemma_region_has_edge(g, lab, self.regions@, i);
        }
    }
}

/// Two cells of the grid are in the same region of a complete scan exactly
/// when a walk over neighbouring cells with one character joins them: the
/// regions are the connected components of the grid.
pub proof fn lemma_regions_are_components(scanner: &RegionScanner, a: Coord, b: Coord)
    requires
        scanner.wf(),
        scanner.phase() == ProcessingState::Complete,
        in_bounds(scanner.grid_view(), a.row as int, a.col as int),
        in_bounds(scanner.grid_view(), b.row as int, b.col as int),
    ensures
        scanner.label_map()[a.row as int][a.col as int] is Some,
        scanner.label_map()[b.row as int][b.col as int] == scanner.label_map()[a.row as int][a.col as int]
            <==> crate::region_laws::connected(scanner.grid_view(), a, b),
{
    scanner.lemma_complete();
    scanner.lemma_regions_in_order();
    scanner.grid.lemma_wf_view();
    let g = scanner.grid_view();
    let lab = scanner.label_map();
    assert(is_labeled(lab, a.row as int, a.col as int));
    assert(crate::regions::label_listed(lab, scanner.regions_view(), a.row as int, a.col as int));
    crate::region_laws::lemma_same_region_iff_connected(
        g,
        lab,
        scanner.regions_view(),
        scanner.regions_view().len() as int,
        a,
        b,
    );
}

/// The side of a cell gets a fence in a complete scan exactly when beyond it
/// lies the edge of the grid or a cell with another character.
pub proof fn lemma_fence_by_character(scanner: &RegionScanner, p: Coord, d: Direction)
    requires
        scanner.wf(),
        scanner.phase() == ProcessingState::Complete,
        in_bounds(scanner.grid_view(), p.row as int, p.col as int),
    ensures
        is_edge(scanner.grid_view(), scanner.label_map(), p, d) <==> (!in_bounds(
            scanner.grid_view(),
            p.row + d.d_row(),
            p.col + d.d_col(),
        ) || scanner.grid_view()[p.row + d.d_row()][p.col + d.d_col()] != scanner.grid_view()[p.row as int][p.col as int]),
{
    scanner.lemma_complete();
    scanner.lemma_regions_in_order();
    scanner.grid.lemma_wf_view();
    let lab = scanner.label_map();
    assert(is_labeled(lab, p.row as int, p.col as int));
    assert(crate::regions::label_listed(lab, scanner.regions_view(), p.row as int, p.col as int));
    crate::region_laws::lemma_edge_by_character(
        scanner.grid_view(),
        lab,
        scanner.regions_view(),
        scanner.regions_view().len() as int,
        p,
        d,
    );
}

/// No orthogonal neighbour of the cell `p` holds the character of `p`.
pub open spec fn is_isolated(g: Seq<Seq<char>>, p: Coord) -> bool {
    forall|d: Direction|
        !(#[trigger] in_bounds(g, p.row + d.d_row(), p.col + d.d_col()) && g[p.row + d.d_row()][p.col
            + d.d_col()] == g[p.row as int][p.col as int])
}

/// In a complete scan a cell without a neighbour of its own character is a
/// region by itself, with an area of one, a perimeter of four and a score
/// of four.
pub proof fn lemma_isolated_cell(scanner: &RegionScanner, p: Coord)
    requires
        scanner.wf(),
        scanner.phase() == ProcessingState::Complete,
        in_bounds(scanner.grid_view(), p.row as int, p.col as int),
        is_isolated(scanner.grid_view(), p),
    ensures
        scanner.label_map()[p.row as int][p.col as int] is Some,
        ({
            let region = scanner.regions_view()[scanner.label_map()[p.row as int][p.col as int]->0 as int];
            &&& region.cells@ == seq![p]
            &&& region.perimeter_segments@.len() == 4
            &&& region.cells@.len() * region.perimeter_segments@.len() == 4
        }),
{
    scanner.lemma_complete();
    scanner.lemma_regions_in_order();
    scanner.grid.lemma_wf_view();
    let g = scanner.grid_view();
    let lab = scanner.label_map();
    let regions = scanner.regions_view();
    assert(is_labeled(lab, p.row as int, p.col as int));
    assert(crate::regions::label_listed(lab, regions, p.row as int, p.col as int));
    let i = lab[p.row as int][p.col as int]->0 as int;
    let cells = regions[i].cells@;
    assert(region_ok(g, lab, regions, i));
    assert forall|k: int| 0 <= k < cells.len() implies #[trigger] cells[k] == p by {
        let q = cells[k];
        assert(cell_ok(g, lab, regions, i, k));
        crate::region_laws::lemma_same_region_iff_connected(g, lab, regions, regions.len() as int, p, q);
        let path = choose|path: Seq<Coord>| #[trigger] crate::region_laws::joins(g, path, p, q);
        if path.len() >= 2 {
            assert(crate::region_laws::step_ok(g, path, 0));
            assert(crate::region_laws::on_grid(g, path, 1));
            let next = path[1];
            if next.row == p.row - 1 {
                assert(in_bounds(g, p.row + Direction::North.d_row(), p.col + Direction::North.d_col()));
            } else if next.row == p.row + 1 {
                assert(in_bounds(g, p.row + Direction::South.d_row(), p.col + Direction::South.d_col()));
            } else if next.col == p.col + 1 {
                assert(in_bounds(g, p.row + Direction::East.d_row(), p.col + Direction::East.d_col()));
            } else {
                assert(in_bounds(g, p.row + Direction::West.d_row(), p.col + Direction::West.d_col()));
            }
            assert(false);
        }
    }
    assert(cells.len() == 1) by {
        if cells.len() >= 2 {
            assert(cells[0] == p && cells[1] == p);
        }
    }
    assert(cells =~= seq![p]);
    let edges = edges_of(g, lab, cells);
    assert(edges.len() == 4) by {
        reveal_with_fuel(edges_upto, 6);
        crate::region_laws::lemma_edge_by_character(g, lab, regions, regions.len() as int, p, Direction::North);
        crate::region_laws::lemma_edge_by_character(g, lab, regions, regions.len() as int, p, Direction::East);
        crate::region_laws::lemma_edge_by_character(g, lab, regions, regions.len() as int, p, Direction::South);
        crate::region_laws::lemma_edge_by_character(g, lab, regions, regions.len() as int, p, Direction::West);
        assert(is_edge(g, lab, p, fence_dir(0)));
        assert(is_edge(g, lab, p, fence_dir(1)));
        assert(is_edge(g, lab, p, fence_dir(2)));
        assert(is_edge(g, lab, p, fence_dir(3)));
        assert(edges_upto(g, lab, cells, 0, 0).len() == 0);
        assert(edges_upto(g, lab, cells, 0, 1).len() == 1);
        assert(edges_upto(g, lab, cells, 0, 2).len() == 2);
        assert(edges_upto(g, lab, cells, 0, 3).len() == 3);
        assert(edges_upto(g, lab, cells, 0, 4).len() == 4);
        assert(edges_upto(g, lab, cells, 1, 0) == edges_upto(g, lab, cells, 0, 4));
    }
}

/// The position `(r, c)` lies outside the grid or holds another character than `x`.
pub open spec fn is_other(g: Seq<Seq<char>>, r: int, c: int, x: char) -> bool {
    !in_bounds(g, r, c) || g[r][c] != x
}

/// The cell `p` is the upper left of a block of two by two cells with one
/// character, and no orthogonal neighbour of the block holds that character.
pub open spec fn is_block(g: Seq<Seq<char>>, p: Coord) -> bool {
    let r = p.row as int;
    let c = p.col as int;
    let x = g[r][c];
    &&& in_bounds(g, r, c)
    &&& in_bounds(g, r, c + 1)
    &&& in_bounds(g, r + 1, c)
    &&& in_bounds(g, r + 1, c + 1)
    &&& g[r][c + 1] == x
    &&& g[r + 1][c] == x
    &&& g[r + 1][c + 1] == x
    &&& is_other(g, r - 1, c, x)
    &&& is_other(g, r - 1, c + 1, x)
    &&& is_other(g, r + 2, c, x)
    &&& is_other(g, r + 2, c + 1, x)
    &&& is_other(g, r, c - 1, x)
    &&& is_other(g, r + 1, c - 1, x)
    &&& is_other(g, r, c + 2, x)
    &&& is_other(g, r + 1, c + 2, x)
}

/// The cell `q` is one of the four cells of the block with the upper left `p`.
pub open spec fn in_block(p: Coord, q: Coord) -> bool {
    (q.row == p.row || q.row == p.row + 1) && (q.col == p.col || q.col == p.col + 1)
}

/// A walk that starts in a block stays in the block.
proof fn lemma_walk_in_block(g: Seq<Seq<char>>, p: Coord, path: Seq<Coord>, k: int)
    requires
        is_block(g, p),
        crate::region_laws::is_walk(g, path),
        in_block(p, path[0]),
        0 <= k < path.len(),
    ensures
        in_block(p, path[k]),
    decreases k,
{
    if k > 0 {
        lemma_walk_in_block(g, p, path, k - 1);
        assert(crate::region_laws::step_ok(g, path, k - 1));
        assert(crate::region_laws::on_grid(g, path, k));
        assert(crate::region_laws::on_grid(g, path, k - 1));
    }
}

/// In a complete scan a block of two by two cells with one character, with
/// no neighbour of that character, is a region with an area of four, a
/// perimeter of eight and a score of 32.
pub proof fn lemma_block_of_four(scanner: &RegionScanner, p: Coord)
    requires
        scanner.wf(),
        scanner.phase() == ProcessingState::Complete,
        is_block(scanner.grid_view(), p),
    ensures
        scanner.label_map()[p.row as int][p.col as int] is Some,
        ({
            let region = scanner.regions_view()[scanner.label_map()[p.row as int][p.col as int]->0 as int];
            &&& region.cells@.len() == 4
            &&& forall|q: Coord| region.cells@.contains(q) <==> in_block(p, q)
            &&& region.perimeter_segments@.len() == 8
            &&& region.cells@.len() * region.perimeter_segments@.len() == 32
        }),
{
    scanner.lemma_complete();
    scanner.lemma_regions_in_order();
    scanner.grid.lemma_wf_view();
    let g = scanner.grid_view();
    let lab = scanner.label_map();
    let regions = scanner.regions_view();
    let n = regions.len() as int;
    let r = p.row as int;
    let c = p.col as int;
    let a = p;
    let b = Coord { row: p.row, col: (c + 1) as usize };
    let d = Coord { row: (r + 1) as usize, col: p.col };
    let e = Coord { row: (r + 1) as usize, col: (c + 1) as usize };
    assert(is_labeled(lab, r, c));
    assert(crate::regions::label_listed(lab, regions, r, c));
    let i = lab[r][c]->0 as int;
    let cells = regions[i].cells@;
    assert(region_ok(g, lab, regions, i));
    assert(crate::regions::settled_at(g, lab, n, r, c));
    assert(closed_at(g, lab, r, c, Direction::East));
    assert(closed_at(g, lab, r, c, Direction::South));
    assert(crate::regions::settled_at(g, lab, n, r, c + 1));
    assert(closed_at(g, lab, r, c + 1, Direction::South));
    assert(lab[r][c + 1] == Some(i as usize));
    assert(lab[r + 1][c] == Some(i as usize));
    assert(lab[r + 1][c + 1] == Some(i as usize));
    assert forall|q: Coord| cells.contains(q) <==> in_block(p, q) by {
        crate::region_laws::lemma_cells_by_label(g, lab, regions, i, q);
        if cells.contains(q) {
            crate::region_laws::lemma_same_region_iff_connected(g, lab, regions, n, p, q);
            let path = choose|path: Seq<Coord>| #[trigger] crate::region_laws::joins(g, path, p, q);
            lemma_walk_in_block(g, p, path, path.len() - 1);
        }
        if in_block(p, q) {
            assert(q == a || q == b || q == d || q == e);
        }
    }
    let block = set![a, b, d, e];
    assert(cells.to_set() =~= block);
    cells.unique_seq_to_set();
    assert(block.len() == 4) by {
        assert(set![a].len() == 1);
        assert(set![a, b].len() == 2);
        assert(set![a, b, d].len() == 3);
    }
    let edges = edges_of(g, lab, cells);
    crate::region_proofs::lemma_edges_upto(g, lab, cells, cells.len() as int, 0);
    let north = Direction::North;
    let east = Direction::East;
    let south = Direction::South;
    let west = Direction::West;
    let fence = set![(a, north), (a, west), (b, north), (b, east), (d, south), (d, west), (e, south), (e, east)];
    assert forall|seg: (Coord, Direction)| edges.contains(seg) <==> fence.contains(seg) by {
        let q = seg.0;
        if cells.contains(q) {
            crate::region_laws::lemma_edge_by_character(g, lab, regions, n, q, seg.1);
            let k = choose|k: int| 0 <= k < cells.len() && cells[k] == q;
            assert(crate::region_proofs::edge_before(g, lab, cells, cells.len() as int, 0, seg) <==> is_edge(
                g,
                lab,
                q,
                seg.1,
            ));
        }
        if edges.contains(seg) {
            assert(crate::region_proofs::edge_before(g, lab, cells, cells.len() as int, 0, seg));
            assert(cells.contains(q));
        }
    }
    assert(edges.to_set() =~= fence);
    edges.unique_seq_to_set();
    assert(fence.len() == 8) by {
        assert(set![(a, north)].len() == 1);
        assert(set![(a, north), (a, west)].len() == 2);
        assert(set![(a, north), (a, west), (b, north)].len() == 3);
        assert(set![(a, north), (a, west), (b, north), (b, east)].len() == 4);
        assert(set![(a, north), (a, west), (b, north), (b, east), (d, south)].len() == 5);
        assert(set![(a, north), (a, west), (b, north), (b, east), (d, south), (d, west)].len() == 6);
        assert(set![(a, north), (a, west), (b, north), (b, east), (d, south), (d, west), (e, south)].len() == 7);
    }
}

/// Two complete scans of grids with the same cells give each cell a region
/// with the same cells, the same area and the same perimeter: what a scan
/// finds depends on the cells of the grid alone.
pub proof fn lemma_scans_agree(first: &RegionScanner, second: &RegionScanner, p: Coord)
    requires
        first.wf(),
        second.wf(),
        first.phase() == ProcessingState::Complete,
        second.phase() == ProcessingState::Complete,
        first.grid_view() == second.grid_view(),
        in_bounds(first.grid_view(), p.row as int, p.col as int),
    ensures
        first.label_map()[p.row as int][p.col as int] is Some,
        second.label_map()[p.row as int][p.col as int] is Some,
        ({
            let a = first.regions_view()[first.label_map()[p.row as int][p.col as int]->0 as int];
            let b = second.regions_view()[second.label_map()[p.row as int][p.col as int]->0 as int];
            &&& a.cells@.to_set() == b.cells@.to_set()
            &&& a.cells@.len() == b.cells@.len()
            &&& a.perimeter_segments@.to_set() == b.perimeter_segments@.to_set()
            &&& a.perimeter_segments@.len() == b.perimeter_segments@.len()
        }),
{
    first.lemma_complete();
    first.lemma_regions_in_order();
    second.lemma_complete();
    second.lemma_regions_in_order();
    first.grid.lemma_wf_view();
    let g = first.grid_view();
    assert(is_labeled(first.label_map(), p.row as int, p.col as int));
    assert(is_labeled(second.label_map(), p.row as int, p.col as int));
    assert(crate::regions::label_listed(first.label_map(), first.regions_view(), p.row as int, p.col as int));
    assert(crate::regions::label_listed(
        second.label_map(),
        second.regions_view(),
        p.row as int,
        p.col as int,
    ));
    crate::region_laws::lemma_regions_agree(
        g,
        first.label_map(),
        first.regions_view(),
        second.label_map(),
        second.regions_view(),
        p,
    );
}

/// Finds the regions of `grid` and fences them: a scan from its first step to its last.
pub fn find_regions(grid: Grid) -> (scanner: RegionScanner)
    requires
        grid.wf(),
        score_fits(grid@),
    ensures
        scanner.wf(),
        scanner.grid_view() == grid@,
        scanner.phase() == ProcessingState::Complete,
        exists|start: RegionScanner, n: nat|
            is_fresh(start) && start.grid_view() == grid@ && #[trigger] steps_effect(start, scanner, n),
{
    let mut scanner = RegionScanner::new(grid);
    scanner.run();
    scanner
}

/// Whether some cell of `coords` is an orthogonal neighbour of `pos`.
pub fn is_adjacent_to_area(coords: &Vec<Coord>, pos: Coord) -> (b: bool)
    ensures
        b == exists|k: int| 0 <= k < coords@.len() && #[trigger] adjacent(coords@[k], pos),
{
    let mut i: usize = 0;
    while i < coords.len()
        invariant
            i <= coords.len(),
            forall|k: int| 0 <= k < i ==> !#[trigger] adjacent(coords@[k], pos),
        decreases coords.len() - i,
    {
        let c = coords[i];
        let same_row = c.row == pos.row && (c.col as i128 + 1 == pos.col as i128 || pos.col as i128 + 1
            == c.col as i128);
        let same_col = c.col == pos.col && (c.row as i128 + 1 == pos.row as i128 || pos.row as i128 + 1
            == c.row as i128);
        if same_row || same_col {
            assert(adjacent(coords@[i as int], pos));
            return true;
        }
        i += 1;
    }
    false
}

} // verus!
