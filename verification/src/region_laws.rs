//! Regions are the connected components of the grid: two cells are in one
//! region exactly when a walk over neighbouring cells with one character
//! joins them.

use crate::direction::Direction;
use crate::grid::{in_bounds, is_addressable, Coord};
use crate::region_proofs::{edge_before, lemma_edges_upto};
use crate::regions::{
    attached, cell_ok, closed_at, closed_cell, edges_of, is_edge, label_listed, labels_fit,
    labels_listed, region_ok, regions_ok, settled, settled_at, Region,
};
use crate::trails::adjacent;
use vstd::prelude::*;

verus! {

/// Cell `i + 1` of `path` is an orthogonal neighbour of cell `i` and holds the same character.
pub open spec fn step_ok(g: Seq<Seq<char>>, path: Seq<Coord>, i: int) -> bool {
    &&& adjacent(path[i], path[i + 1])
    &&& g[path[i + 1].row as int][path[i + 1].col as int] == g[path[i].row as int][path[i].col as int]
}

/// Cell `i` of `path` is a cell of the grid.
pub open spec fn on_grid(g: Seq<Seq<char>>, path: Seq<Coord>, i: int) -> bool {
    in_bounds(g, path[i].row as int, path[i].col as int)
}

/// `path` is a walk over cells of the grid, from each to an orthogonal
/// neighbour with the same character.
pub open spec fn is_walk(g: Seq<Seq<char>>, path: Seq<Coord>) -> bool {
    &&& path.len() >= 1
    &&& forall|i: int| 0 <= i < path.len() ==> #[trigger] on_grid(g, path, i)
    &&& forall|i: int| 0 <= i < path.len() - 1 ==> #[trigger] step_ok(g, path, i)
}

/// `path` is a walk from `a` to `b`.
pub open spec fn joins(g: Seq<Seq<char>>, path: Seq<Coord>, a: Coord, b: Coord) -> bool {
    is_walk(g, path) && path[0] == a && path[path.len() - 1] == b
}

/// A walk joins `a` and `b`.
pub open spec fn connected(g: Seq<Seq<char>>, a: Coord, b: Coord) -> bool {
    exists|path: Seq<Coord>| #[trigger] joins(g, path, a, b)
}

/// A cell of the grid is joined to itself.
pub proof fn lemma_connected_refl(g: Seq<Seq<char>>, a: Coord)
    requires
        in_bounds(g, a.row as int, a.col as int),
    ensures
        connected(g, a, a),
{
    let path = seq![a];
    assert(on_grid(g, path, 0));
    assert(joins(g, path, a, a));
}

/// A walk can be walked backwards.
pub proof fn lemma_connected_sym(g: Seq<Seq<char>>, a: Coord, b: Coord)
    requires
        connected(g, a, b),
    ensures
        connected(g, b, a),
{
    let path = choose|path: Seq<Coord>| #[trigger] joins(g, path, a, b);
    let back = path.reverse();
    let n = path.len() as int;
    assert forall|i: int| 0 <= i < back.len() implies #[trigger] on_grid(g, back, i) by {
        assert(back[i] == path[n - 1 - i]);
        assert(on_grid(g, path, n - 1 - i));
    }
    assert forall|i: int| 0 <= i < back.len() - 1 implies #[trigger] step_ok(g, back, i) by {
        assert(back[i] == path[n - 1 - i]);
        assert(back[i + 1] == path[n - 2 - i]);
        assert(step_ok(g, path, n - 2 - i));
    }
    assert(back[0] == path[n - 1]);
    assert(back[n - 1] == path[0]);
    assert(joins(g, back, b, a));
}

/// Two walks, the second from where the first ends, make one.
pub proof fn lemma_connected_trans(g: Seq<Seq<char>>, a: Coord, b: Coord, c: Coord)
    requires
        connected(g, a, b),
        connected(g, b, c),
    ensures
        connected(g, a, c),
{
    let first = choose|path: Seq<Coord>| #[trigger] joins(g, path, a, b);
    let second = choose|path: Seq<Coord>| #[trigger] joins(g, path, b, c);
    let n = first.len() as int;
    let path = first + second.drop_first();
    assert forall|i: int| 0 <= i < path.len() implies #[trigger] on_grid(g, path, i) by {
        if i < n {
            assert(path[i] == first[i]);
            assert(on_grid(g, first, i));
        } else {
            assert(path[i] == second[i - n + 1]);
            assert(on_grid(g, second, i - n + 1));
        }
    }
    assert forall|i: int| 0 <= i < path.len() - 1 implies #[trigger] step_ok(g, path, i) by {
        if i < n - 1 {
            assert(path[i] == first[i] && path[i + 1] == first[i + 1]);
            assert(step_ok(g, first, i));
        } else if i == n - 1 {
            assert(path[i] == first[n - 1]);
            assert(path[i] == second[0]);
            assert(path[i + 1] == second[1]);
            assert(step_ok(g, second, 0));
        } else {
            assert(path[i] == second[i - n + 1] && path[i + 1] == second[i - n + 2]);
            assert(step_ok(g, second, i - n + 1));
        }
    }
    if second.len() == 1 {
        assert(path =~= first);
    } else {
        assert(path[path.len() - 1] == second[second.len() - 1]);
    }
    assert(joins(g, path, a, c));
}

/// Every cell of a region is joined to the region's first cell.
pub proof fn lemma_region_connected(
    g: Seq<Seq<char>>,
    lab: Seq<Seq<Option<usize>>>,
    regions: Seq<Region>,
    i: int,
    k: int,
)
    requires
        regions_ok(g, lab, regions),
        0 <= i < regions.len(),
        0 <= k < regions[i].cells@.len(),
    ensures
        connected(g, regions[i].cells@[0], regions[i].cells@[k]),
    decreases k,
{
    let cells = regions[i].cells@;
    assert(region_ok(g, lab, regions, i));
    assert(cell_ok(g, lab, regions, i, k));
    if k == 0 {
        lemma_connected_refl(g, cells[0]);
    } else {
        assert(attached(cells, k));
        let j = choose|j: int| 0 <= j < k && #[trigger] adjacent(cells[j], cells[k]);
        lemma_region_connected(g, lab, regions, i, j);
        assert(cell_ok(g, lab, regions, i, j));
        let last = seq![cells[j], cells[k]];
        assert(on_grid(g, last, 0) && on_grid(g, last, 1));
        assert forall|x: int| 0 <= x < last.len() implies #[trigger] on_grid(g, last, x) by {}
        assert forall|x: int| 0 <= x < last.len() - 1 implies #[trigger] step_ok(g, last, x) by {
            assert(x == 0);
        }
        assert(joins(g, last, cells[j], cells[k]));
        lemma_connected_trans(g, cells[0], cells[j], cells[k]);
    }
}

/// A neighbour with the same character of a closed cell carries the cell's label.
proof fn lemma_closed_neighbour(g: Seq<Seq<char>>, lab: Seq<Seq<Option<usize>>>, p: Coord, q: Coord)
    requires
        in_bounds(g, p.row as int, p.col as int),
        in_bounds(g, q.row as int, q.col as int),
        adjacent(p, q),
        g[q.row as int][q.col as int] == g[p.row as int][p.col as int],
        closed_cell(g, lab, p.row as int, p.col as int),
    ensures
        lab[q.row as int][q.col as int] == lab[p.row as int][p.col as int],
{
    let r = p.row as int;
    let c = p.col as int;
    if q.row == r - 1 {
        assert(closed_at(g, lab, r, c, Direction::North));
    } else if q.row == r + 1 {
        assert(closed_at(g, lab, r, c, Direction::South));
    } else if q.col == c + 1 {
        assert(closed_at(g, lab, r, c, Direction::East));
    } else {
        assert(closed_at(g, lab, r, c, Direction::West));
    }
}

/// All cells of a walk that starts in a complete region carry that region's label.
pub proof fn lemma_walk_keeps_label(
    g: Seq<Seq<char>>,
    lab: Seq<Seq<Option<usize>>>,
    upto: int,
    path: Seq<Coord>,
    k: int,
)
    requires
        settled(g, lab, upto),
        is_walk(g, path),
        lab[path[0].row as int][path[0].col as int] is Some,
        lab[path[0].row as int][path[0].col as int]->0 < upto,
        0 <= k < path.len(),
    ensures
        lab[path[k].row as int][path[k].col as int] == lab[path[0].row as int][path[0].col as int],
    decreases k,
{
    if k > 0 {
        lemma_walk_keeps_label(g, lab, upto, path, k - 1);
        let p = path[k - 1];
        let q = path[k];
        assert(on_grid(g, path, k - 1));
        assert(on_grid(g, path, k));
        assert(step_ok(g, path, k - 1));
        assert(settled_at(g, lab, upto, p.row as int, p.col as int));
        lemma_closed_neighbour(g, lab, p, q);
    }
}

/// Two cells of the grid, one of them in a complete region, are in the same
/// region exactly when a walk joins them.
pub proof fn lemma_same_region_iff_connected(
    g: Seq<Seq<char>>,
    lab: Seq<Seq<Option<usize>>>,
    regions: Seq<Region>,
    upto: int,
    a: Coord,
    b: Coord,
)
    requires
        is_addressable(g),
        labels_fit(g, lab),
        regions_ok(g, lab, regions),
        labels_listed(g, lab, regions),
        settled(g, lab, upto),
        in_bounds(g, a.row as int, a.col as int),
        in_bounds(g, b.row as int, b.col as int),
        lab[a.row as int][a.col as int] is Some,
        lab[a.row as int][a.col as int]->0 < upto,
    ensures
        lab[b.row as int][b.col as int] == lab[a.row as int][a.col as int] <==> connected(g, a, b),
{
    if connected(g, a, b) {
        let path = choose|path: Seq<Coord>| #[trigger] joins(g, path, a, b);
        lemma_walk_keeps_label(g, lab, upto, path, path.len() - 1);
    }
    if lab[b.row as int][b.col as int] == lab[a.row as int][a.col as int] {
        let i = lab[a.row as int][a.col as int]->0 as int;
        assert(label_listed(lab, regions, a.row as int, a.col as int));
        assert(label_listed(lab, regions, b.row as int, b.col as int));
        let cells = regions[i].cells@;
        let ka = choose|k: int| 0 <= k < cells.len() && cells[k] == a;
        let kb = choose|k: int| 0 <= k < cells.len() && cells[k] == b;
        lemma_region_connected(g, lab, regions, i, ka);
        lemma_region_connected(g, lab, regions, i, kb);
        lemma_connected_sym(g, cells[0], a);
        lemma_connected_trans(g, a, cells[0], b);
    }
}

/// The side of a cell of a complete region lies on the region's boundary
/// exactly when beyond it lies the edge of the grid or a cell with another
/// character.
pub proof fn lemma_edge_by_character(
    g: Seq<Seq<char>>,
    lab: Seq<Seq<Option<usize>>>,
    regions: Seq<Region>,
    upto: int,
    p: Coord,
    d: Direction,
)
    requires
        is_addressable(g),
        labels_fit(g, lab),
        regions_ok(g, lab, regions),
        labels_listed(g, lab, regions),
        settled(g, lab, upto),
        in_bounds(g, p.row as int, p.col as int),
        lab[p.row as int][p.col as int] is Some,
        lab[p.row as int][p.col as int]->0 < upto,
    ensures
        is_edge(g, lab, p, d) <==> (!in_bounds(g, p.row + d.d_row(), p.col + d.d_col()) || g[p.row
            + d.d_row()][p.col + d.d_col()] != g[p.row as int][p.col as int]),
{
    let nr = p.row + d.d_row();
    let nc = p.col + d.d_col();
    if in_bounds(g, nr, nc) {
        assert(settled_at(g, lab, upto, p.row as int, p.col as int));
        assert(closed_at(g, lab, p.row as int, p.col as int, d));
        if lab[nr][nc] == lab[p.row as int][p.col as int] {
            let i = lab[p.row as int][p.col as int]->0 as int;
            assert(label_listed(lab, regions, p.row as int, p.col as int));
            assert(label_listed(lab, regions, nr, nc));
            let cells = regions[i].cells@;
            let q = Coord { row: nr as usize, col: nc as usize };
            let kp = choose|k: int| 0 <= k < cells.len() && cells[k] == p;
            let kq = choose|k: int| 0 <= k < cells.len() && cells[k] == q;
            assert(region_ok(g, lab, regions, i));
            assert(cell_ok(g, lab, regions, i, kp));
            assert(cell_ok(g, lab, regions, i, kq));
        }
    }
}

/// The cells of a region are the cells that carry its label.
pub proof fn lemma_cells_by_label(
    g: Seq<Seq<char>>,
    lab: Seq<Seq<Option<usize>>>,
    regions: Seq<Region>,
    i: int,
    q: Coord,
)
    requires
        is_addressable(g),
        regions_ok(g, lab, regions),
        labels_listed(g, lab, regions),
        0 <= i < regions.len(),
    ensures
        regions[i].cells@.contains(q) <==> (in_bounds(g, q.row as int, q.col as int) && lab[q.row as int][q.col as int]
            == Some(i as usize)),
{
    let cells = regions[i].cells@;
    assert(region_ok(g, lab, regions, i));
    if cells.contains(q) {
        let k = choose|k: int| 0 <= k < cells.len() && cells[k] == q;
        assert(cell_ok(g, lab, regions, i, k));
    }
    if in_bounds(g, q.row as int, q.col as int) && lab[q.row as int][q.col as int] == Some(i as usize) {
        assert(label_listed(lab, regions, q.row as int, q.col as int));
    }
}

/// Two complete scans of one grid agree on the region of each cell: the
/// regions that hold the cell `p` have the same cells and the same fence
/// segments, so the same area and the same perimeter.
pub proof fn lemma_regions_agree(
    g: Seq<Seq<char>>,
    lab1: Seq<Seq<Option<usize>>>,
    regions1: Seq<Region>,
    lab2: Seq<Seq<Option<usize>>>,
    regions2: Seq<Region>,
    p: Coord,
)
    requires
        is_addressable(g),
        labels_fit(g, lab1),
        regions_ok(g, lab1, regions1),
        labels_listed(g, lab1, regions1),
        settled(g, lab1, regions1.len() as int),
        labels_fit(g, lab2),
        regions_ok(g, lab2, regions2),
        labels_listed(g, lab2, regions2),
        settled(g, lab2, regions2.len() as int),
        in_bounds(g, p.row as int, p.col as int),
        lab1[p.row as int][p.col as int] is Some,
        lab2[p.row as int][p.col as int] is Some,
    ensures
        ({
            let first = regions1[lab1[p.row as int][p.col as int]->0 as int];
            let second = regions2[lab2[p.row as int][p.col as int]->0 as int];
            &&& first.cells@.to_set() == second.cells@.to_set()
            &&& first.cells@.len() == second.cells@.len()
            &&& edges_of(g, lab1, first.cells@).to_set() == edges_of(g, lab2, second.cells@).to_set()
            &&& edges_of(g, lab1, first.cells@).len() == edges_of(g, lab2, second.cells@).len()
        }),
{
    let i = lab1[p.row as int][p.col as int]->0 as int;
    let j = lab2[p.row as int][p.col as int]->0 as int;
    assert(label_listed(lab1, regions1, p.row as int, p.col as int));
    assert(label_listed(lab2, regions2, p.row as int, p.col as int));
    let cells1 = regions1[i].cells@;
    let cells2 = regions2[j].cells@;
    assert(region_ok(g, lab1, regions1, i));
    assert(region_ok(g, lab2, regions2, j));
    assert forall|q: Coord| cells1.contains(q) <==> cells2.contains(q) by {
        lemma_cells_by_label(g, lab1, regions1, i, q);
        lemma_cells_by_label(g, lab2, regions2, j, q);
        if in_bounds(g, q.row as int, q.col as int) {
            lemma_same_region_iff_connected(g, lab1, regions1, regions1.len() as int, p, q);
            lemma_same_region_iff_connected(g, lab2, regions2, regions2.len() as int, p, q);
        }
    }
    assert(cells1.to_set() =~= cells2.to_set());
    cells1.unique_seq_to_set();
    cells2.unique_seq_to_set();
    let edges1 = edges_of(g, lab1, cells1);
    let edges2 = edges_of(g, lab2, cells2);
    lemma_edges_upto(g, lab1, cells1, cells1.len() as int, 0);
    lemma_edges_upto(g, lab2, cells2, cells2.len() as int, 0);
    assert forall|seg: (Coord, Direction)| edges1.contains(seg) <==> edges2.contains(seg) by {
        let q = seg.0;
        lemma_cells_by_label(g, lab1, regions1, i, q);
        lemma_cells_by_label(g, lab2, regions2, j, q);
        if cells1.contains(q) {
            assert(cells2.contains(q));
            lemma_edge_by_character(g, lab1, regions1, regions1.len() as int, q, seg.1);
            lemma_edge_by_character(g, lab2, regions2, regions2.len() as int, q, seg.1);
        }
        if edges1.contains(seg) {
            assert(edge_before(g, lab1, cells1, cells1.len() as int, 0, seg));
            assert(cells1.contains(q));
            let k = choose|k: int| 0 <= k < cells2.len() && cells2[k] == q;
            assert(edge_before(g, lab2, cells2, cells2.len() as int, 0, seg));
        }
        if edges2.contains(seg) {
            assert(edge_before(g, lab2, cells2, cells2.len() as int, 0, seg));
            assert(cells2.contains(q));
            assert(cells1.contains(q));
            let k = choose|k: int| 0 <= k < cells1.len() && cells1[k] == q;
            assert(edge_before(g, lab1, cells1, cells1.len() as int, 0, seg));
        }
    }
    assert(edges1.to_set() =~= edges2.to_set());
    edges1.unique_seq_to_set();
    edges2.unique_seq_to_set();
}

} // verus!
