//! Why each step of a scan keeps the regions in order.

use crate::direction::Direction;
use crate::grid::{in_bounds, is_addressable, is_rectangular, scanned_before, width_of, Coord};
use crate::regions::{
    attached, cell_ok, cells_total, closed_at, closed_cell, edges_of, edges_upto, fence_dir,
    fence_dir_index, fences_total, is_edge, is_labeled, label_listed,
    labeled_cells, labels_fit, labels_listed, prefix_closed, region_ok, regions_ok, scanned_labeled,
    score_total, settled, settled_at, Region,
};
use crate::trails::adjacent;
use vstd::prelude::*;
use vstd::set_lib::{lemma_int_range, lemma_map_size, lemma_set_disjoint_lens, set_int_range};

verus! {

/// The labels `lab` with the label `id` on the cell `p`.
pub open spec fn with_label(lab: Seq<Seq<Option<usize>>>, p: Coord, id: usize) -> Seq<Seq<Option<usize>>> {
    lab.update(p.row as int, lab[p.row as int].update(p.col as int, Some(id)))
}

/// `after` is `before` with one more region, which has the one cell `p`.
pub open spec fn added(g: Seq<Seq<char>>, before: Seq<Region>, after: Seq<Region>, p: Coord) -> bool {
    &&& after.len() == before.len() + 1
    &&& forall|j: int| 0 <= j < before.len() ==> #[trigger] after[j] == before[j]
    &&& after[before.len() as int].label == before.len()
    &&& after[before.len() as int].member == g[p.row as int][p.col as int]
    &&& after[before.len() as int].cells@ == seq![p]
}

/// `after` is `before` with the cell `nb` at the end of region `id`.
pub open spec fn grown(before: Seq<Region>, after: Seq<Region>, id: int, nb: Coord) -> bool {
    &&& after.len() == before.len()
    &&& forall|j: int| 0 <= j < before.len() && j != id ==> #[trigger] after[j] == before[j]
    &&& after[id].label == before[id].label
    &&& after[id].member == before[id].member
    &&& after[id].visited == before[id].visited
    &&& after[id].perimeter_segments == before[id].perimeter_segments
    &&& after[id].cells@ == before[id].cells@.push(nb)
}

/// The count of cells over fewer regions is no larger.
pub proof fn lemma_cells_total_monotone(regions: Seq<Region>, a: int, b: int)
    requires
        a <= b,
    ensures
        cells_total(regions, a) <= cells_total(regions, b),
    decreases b,
{
    if b > 0 && a < b {
        lemma_cells_total_monotone(regions, a, b - 1);
    }
}

/// Regions that agree in their first `n` places have the same count of cells there.
pub proof fn lemma_cells_total_same(before: Seq<Region>, after: Seq<Region>, n: int)
    requires
        n <= before.len(),
        n <= after.len(),
        forall|j: int| 0 <= j < n ==> (#[trigger] after[j]).cells@ == before[j].cells@,
    ensures
        cells_total(after, n) == cells_total(before, n),
    decreases n,
{
    if n > 0 {
        lemma_cells_total_same(before, after, n - 1);
    }
}

/// One more cell in one region is one more cell in all.
pub proof fn lemma_cells_total_grown(before: Seq<Region>, after: Seq<Region>, id: int, nb: Coord, n: int)
    requires
        grown(before, after, id, nb),
        0 <= id < n <= before.len(),
    ensures
        cells_total(after, n) == cells_total(before, n) + 1,
    decreases n,
{
    if n - 1 == id {
        lemma_cells_total_same(before, after, n - 1);
    } else {
        lemma_cells_total_grown(before, after, id, nb, n - 1);
    }
}

/// A new region on a cell without a label leaves everything in order.
pub proof fn lemma_region_added(
    g: Seq<Seq<char>>,
    lab: Seq<Seq<Option<usize>>>,
    before: Seq<Region>,
    after: Seq<Region>,
    p: Coord,
)
    requires
        is_addressable(g),
        labels_fit(g, lab),
        regions_ok(g, lab, before),
        labels_listed(g, lab, before),
        settled(g, lab, before.len() as int),
        in_bounds(g, p.row as int, p.col as int),
        lab[p.row as int][p.col as int] is None,
        added(g, before, after, p),
    ensures
        labels_fit(g, with_label(lab, p, before.len() as usize)),
        regions_ok(g, with_label(lab, p, before.len() as usize), after),
        labels_listed(g, with_label(lab, p, before.len() as usize), after),
        settled(g, with_label(lab, p, before.len() as usize), before.len() as int),
        prefix_closed(g, with_label(lab, p, before.len() as usize), after[before.len() as int].cells@, 0),
        labeled_cells(g, with_label(lab, p, before.len() as usize)) == labeled_cells(g, lab).insert(p),
        !labeled_cells(g, lab).contains(p),
        cells_total(after, after.len() as int) == cells_total(before, before.len() as int) + 1,
        forall|row: int, col: int|
            scanned_labeled(g, lab, row, col) ==> scanned_labeled(
                g,
                with_label(lab, p, before.len() as usize),
                row,
                col,
            ),
{
    let n = before.len() as int;
    let lab2 = with_label(lab, p, n as usize);
    assert forall|i: int| 0 <= i < after.len() implies #[trigger] region_ok(g, lab2, after, i) by {
        if i < n {
            assert(region_ok(g, lab, before, i));
            assert(after[i] == before[i]);
            assert forall|k: int| 0 <= k < after[i].cells@.len() implies #[trigger] cell_ok(
                g,
                lab2,
                after,
                i,
                k,
            ) by {
                assert(cell_ok(g, lab, before, i, k));
            }
            assert forall|k: int| 1 <= k < after[i].cells@.len() implies #[trigger] attached(
                after[i].cells@,
                k,
            ) by {
                assert(attached(before[i].cells@, k));
            }
        } else {
            assert forall|k: int| 0 <= k < after[i].cells@.len() implies #[trigger] cell_ok(
                g,
                lab2,
                after,
                i,
                k,
            ) by {}
        }
    }
    assert forall|r: int, c: int| in_bounds(g, r, c) implies #[trigger] label_listed(lab2, after, r, c) by {
        if r == p.row && c == p.col {
            assert(after[n].cells@[0] == p);
        } else {
            assert(label_listed(lab, before, r, c));
            assert(lab2[r][c] == lab[r][c]);
            if lab[r][c] is Some {
                let i = lab[r][c]->0 as int;
                assert(after[i] == before[i]);
            }
        }
    }
    assert forall|r: int, c: int| in_bounds(g, r, c) implies #[trigger] settled_at(g, lab2, n, r, c) by {
        assert(settled_at(g, lab, n, r, c));
        if r == p.row && c == p.col {
        } else {
            assert(lab2[r][c] == lab[r][c]);
            if lab[r][c] is Some && lab[r][c]->0 < n {
                lemma_closed_kept(g, lab, lab2, p, r, c);
            }
        }
    }
    assert(labeled_cells(g, lab2) =~= labeled_cells(g, lab).insert(p));
    lemma_cells_total_same(before, after, n);
    assert forall|row: int, col: int| scanned_labeled(g, lab, row, col) implies scanned_labeled(
        g,
        lab2,
        row,
        col,
    ) by {
        assert forall|r: int, c: int|
            in_bounds(g, r, c) && scanned_before(r, c, row, col) implies #[trigger] is_labeled(
            lab2,
            r,
            c,
        ) by {
            assert(is_labeled(lab, r, c));
        }
    }
}

/// A closed cell with a label stays closed when a cell without a label gets one.
proof fn lemma_closed_kept(
    g: Seq<Seq<char>>,
    lab: Seq<Seq<Option<usize>>>,
    lab2: Seq<Seq<Option<usize>>>,
    p: Coord,
    r: int,
    c: int,
)
    requires
        labels_fit(g, lab),
        in_bounds(g, r, c),
        in_bounds(g, p.row as int, p.col as int),
        lab[p.row as int][p.col as int] is None,
        lab[r][c] is Some,
        closed_cell(g, lab, r, c),
        forall|x: int, y: int|
            in_bounds(g, x, y) && !(x == p.row && y == p.col) ==> #[trigger] lab2[x][y] == lab[x][y],
        lab2[r][c] == lab[r][c],
    ensures
        closed_cell(g, lab2, r, c),
{
    assert(closed_at(g, lab, r, c, Direction::North));
    assert(closed_at(g, lab, r, c, Direction::East));
    assert(closed_at(g, lab, r, c, Direction::South));
    assert(closed_at(g, lab, r, c, Direction::West));
    assert forall|d: Direction| closed_at(g, lab, r, c, d) implies closed_at(g, lab2, r, c, d) by {
        let nr = r + d.d_row();
        let nc = c + d.d_col();
        if in_bounds(g, nr, nc) && g[nr][nc] == g[r][c] {
            if nr == p.row && nc == p.col {
                assert(lab[nr][nc] == lab[r][c]);
            } else {
                assert(lab2[nr][nc] == lab[nr][nc]);
            }
        }
    }
}

/// One more cell in the newest region, next to one of its cells and with its
/// character, leaves everything in order.
pub proof fn lemma_region_grown(
    g: Seq<Seq<char>>,
    lab: Seq<Seq<Option<usize>>>,
    before: Seq<Region>,
    after: Seq<Region>,
    from: int,
    nb: Coord,
    f: int,
)
    requires
        is_addressable(g),
        labels_fit(g, lab),
        regions_ok(g, lab, before),
        labels_listed(g, lab, before),
        before.len() >= 1,
        settled(g, lab, before.len() - 1),
        0 <= from < before[before.len() - 1].cells@.len(),
        0 <= f <= before[before.len() - 1].cells@.len(),
        prefix_closed(g, lab, before[before.len() - 1].cells@, f),
        in_bounds(g, nb.row as int, nb.col as int),
        g[nb.row as int][nb.col as int] == before[before.len() - 1].member,
        adjacent(before[before.len() - 1].cells@[from], nb),
        lab[nb.row as int][nb.col as int] is None,
        grown(before, after, before.len() - 1, nb),
    ensures
        labels_fit(g, with_label(lab, nb, (before.len() - 1) as usize)),
        regions_ok(g, with_label(lab, nb, (before.len() - 1) as usize), after),
        labels_listed(g, with_label(lab, nb, (before.len() - 1) as usize), after),
        settled(g, with_label(lab, nb, (before.len() - 1) as usize), before.len() - 1),
        prefix_closed(
            g,
            with_label(lab, nb, (before.len() - 1) as usize),
            after[before.len() - 1].cells@,
            f,
        ),
        labeled_cells(g, with_label(lab, nb, (before.len() - 1) as usize)) == labeled_cells(g, lab).insert(
            nb,
        ),
        !labeled_cells(g, lab).contains(nb),
        cells_total(after, after.len() as int) == cells_total(before, before.len() as int) + 1,
        forall|row: int, col: int|
            scanned_labeled(g, lab, row, col) ==> scanned_labeled(
                g,
                with_label(lab, nb, (before.len() - 1) as usize),
                row,
                col,
            ),
{
    let n = before.len() as int;
    let id = n - 1;
    let lab2 = with_label(lab, nb, id as usize);
    let old_cells = before[id].cells@;
    let new_cells = after[id].cells@;
    assert(region_ok(g, lab, before, id));
    assert forall|i: int| 0 <= i < after.len() implies #[trigger] region_ok(g, lab2, after, i) by {
        assert(region_ok(g, lab, before, i));
        if i < id {
            assert(after[i] == before[i]);
            assert forall|k: int| 0 <= k < after[i].cells@.len() implies #[trigger] cell_ok(
                g,
                lab2,
                after,
                i,
                k,
            ) by {
                assert(cell_ok(g, lab, before, i, k));
            }
            assert forall|k: int| 1 <= k < after[i].cells@.len() implies #[trigger] attached(
                after[i].cells@,
                k,
            ) by {
                assert(attached(before[i].cells@, k));
            }
        } else {
            assert forall|k: int| 0 <= k < new_cells.len() implies #[trigger] cell_ok(
                g,
                lab2,
                after,
                i,
                k,
            ) by {
                if k < old_cells.len() {
                    assert(cell_ok(g, lab, before, id, k));
                    assert(new_cells[k] == old_cells[k]);
                }
            }
            assert forall|k: int| 1 <= k < new_cells.len() implies #[trigger] attached(new_cells, k) by {
                if k < old_cells.len() {
                    assert(attached(old_cells, k));
                    let j = choose|j: int| 0 <= j < k && #[trigger] adjacent(old_cells[j], old_cells[k]);
                    assert(adjacent(new_cells[j], new_cells[k]));
                } else {
                    assert(adjacent(new_cells[from], new_cells[k]));
                }
            }
            assert forall|a: int, b: int|
                0 <= a < new_cells.len() && 0 <= b < new_cells.len() && a != b implies new_cells[a]
                != new_cells[b] by {
                if a < old_cells.len() {
                    assert(cell_ok(g, lab, before, id, a));
                }
                if b < old_cells.len() {
                    assert(cell_ok(g, lab, before, id, b));
                }
            }
        }
    }
    assert forall|r: int, c: int| in_bounds(g, r, c) implies #[trigger] label_listed(lab2, after, r, c) by {
        if r == nb.row && c == nb.col {
            assert(new_cells[old_cells.len() as int] == nb);
        } else {
            assert(label_listed(lab, before, r, c));
            assert(lab2[r][c] == lab[r][c]);
            if lab[r][c] is Some {
                let i = lab[r][c]->0 as int;
                let q = Coord { row: r as usize, col: c as usize };
                if i == id {
                    let k = choose|k: int| 0 <= k < old_cells.len() && old_cells[k] == q;
                    assert(new_cells[k] == q);
                } else {
                    assert(after[i] == before[i]);
                }
            }
        }
    }
    assert forall|r: int, c: int| in_bounds(g, r, c) implies #[trigger] settled_at(g, lab2, id, r, c) by {
        assert(settled_at(g, lab, id, r, c));
        if r == nb.row && c == nb.col {
        } else {
            assert(lab2[r][c] == lab[r][c]);
            if lab[r][c] is Some && lab[r][c]->0 < id {
                lemma_closed_kept(g, lab, lab2, nb, r, c);
            }
        }
    }
    assert forall|k: int| 0 <= k < f implies closed_cell(
        g,
        lab2,
        (#[trigger] new_cells[k]).row as int,
        new_cells[k].col as int,
    ) by {
        assert(new_cells[k] == old_cells[k]);
        assert(cell_ok(g, lab, before, id, k));
        assert(closed_cell(g, lab, old_cells[k].row as int, old_cells[k].col as int));
        lemma_closed_kept(g, lab, lab2, nb, old_cells[k].row as int, old_cells[k].col as int);
    }
    assert(labeled_cells(g, lab2) =~= labeled_cells(g, lab).insert(nb));
    lemma_cells_total_grown(before, after, id, nb, n);
    assert forall|row: int, col: int| scanned_labeled(g, lab, row, col) implies scanned_labeled(
        g,
        lab2,
        row,
        col,
    ) by {
        assert forall|r: int, c: int|
            in_bounds(g, r, c) && scanned_before(r, c, row, col) implies #[trigger] is_labeled(
            lab2,
            r,
            c,
        ) by {
            assert(is_labeled(lab, r, c));
        }
    }
}

/// The side of a cell of the newest region in the direction `d` is closed
/// where the neighbour there lies outside the grid, holds another
/// character, or carries a label: a label of an older region it cannot be.
pub proof fn lemma_side_closed(
    g: Seq<Seq<char>>,
    lab: Seq<Seq<Option<usize>>>,
    regions: Seq<Region>,
    k: int,
    d: Direction,
)
    requires
        labels_fit(g, lab),
        regions_ok(g, lab, regions),
        regions.len() >= 1,
        settled(g, lab, regions.len() - 1),
        labels_listed(g, lab, regions),
        0 <= k < regions[regions.len() - 1].cells@.len(),
        ({
            let p = regions[regions.len() - 1].cells@[k];
            let nr = p.row + d.d_row();
            let nc = p.col + d.d_col();
            in_bounds(g, nr, nc) && g[nr][nc] == g[p.row as int][p.col as int] ==> lab[nr][nc] is Some
        }),
    ensures
        closed_at(
            g,
            lab,
            regions[regions.len() - 1].cells@[k].row as int,
            regions[regions.len() - 1].cells@[k].col as int,
            d,
        ),
{
    let id = regions.len() - 1;
    let p = regions[id].cells@[k];
    let nr = p.row + d.d_row();
    let nc = p.col + d.d_col();
    assert(region_ok(g, lab, regions, id));
    assert(cell_ok(g, lab, regions, id, k));
    if in_bounds(g, nr, nc) && g[nr][nc] == g[p.row as int][p.col as int] {
        let j = lab[nr][nc]->0;
        assert(label_listed(lab, regions, nr, nc));
        if j != id {
            assert(settled_at(g, lab, id, nr, nc));
            assert(closed_cell(g, lab, nr, nc));
            let back = d.clockwise().clockwise();
            assert(closed_at(g, lab, nr, nc, back));
            assert(nr + back.d_row() == p.row && nc + back.d_col() == p.col);
            assert(false);
        }
    }
}

/// Once every cell of the newest region is closed, the region is complete.
pub proof fn lemma_fill_done(g: Seq<Seq<char>>, lab: Seq<Seq<Option<usize>>>, regions: Seq<Region>)
    requires
        is_addressable(g),
        labels_fit(g, lab),
        regions_ok(g, lab, regions),
        labels_listed(g, lab, regions),
        regions.len() >= 1,
        settled(g, lab, regions.len() - 1),
        prefix_closed(
            g,
            lab,
            regions[regions.len() - 1].cells@,
            regions[regions.len() - 1].cells@.len() as int,
        ),
    ensures
        settled(g, lab, regions.len() as int),
{
    let n = regions.len() as int;
    assert forall|r: int, c: int| in_bounds(g, r, c) implies #[trigger] settled_at(g, lab, n, r, c) by {
        assert(settled_at(g, lab, n - 1, r, c));
        assert(label_listed(lab, regions, r, c));
        if lab[r][c] is Some && lab[r][c]->0 == n - 1 {
            let q = Coord { row: r as usize, col: c as usize };
            let cells = regions[n - 1].cells@;
            let k = choose|k: int| 0 <= k < cells.len() && cells[k] == q;
            assert(closed_cell(g, lab, cells[k].row as int, cells[k].col as int));
        }
    }
}

/// The cells of a grid of `height` rows and `width` columns.
pub open spec fn all_cells(height: nat, width: nat) -> Set<Coord> {
    Set::new(|p: Coord| p.row < height && p.col < width)
}

/// A grid of `height` rows and `width` columns has `height * width` cells.
pub proof fn lemma_all_cells_len(height: nat, width: nat)
    requires
        height <= usize::MAX,
        width <= usize::MAX,
    ensures
        all_cells(height, width).finite(),
        all_cells(height, width).len() == height * width,
    decreases height,
{
    if height == 0 {
        assert(all_cells(height, width) =~= Set::<Coord>::empty());
        assert(height * width == 0) by (nonlinear_arith)
            requires
                height == 0,
        ;
    } else {
        let last = (height - 1) as nat;
        lemma_all_cells_len(last, width);
        let upper = all_cells(last, width);
        let f = |c: int| Coord { row: last as usize, col: c as usize };
        let cols = set_int_range(0, width as int);
        lemma_int_range(0, width as int);
        let row = cols.map(f);
        assert(vstd::relations::injective_on(f, cols));
        lemma_map_size(cols, row, f);
        assert forall|p: Coord| all_cells(height, width).contains(p) <==> (upper + row).contains(p) by {
            if all_cells(height, width).contains(p) && p.row == last {
                assert(cols.contains(p.col as int));
                assert(f(p.col as int) == p);
                assert(row.contains(p));
            }
            if row.contains(p) {
                let c = choose|c: int| cols.contains(c) && p == f(c);
                assert(p.row == last && p.col == c);
            }
        }
        assert(all_cells(height, width) =~= upper + row);
        assert(upper.disjoint(row)) by {
            assert forall|p: Coord| !(upper.contains(p) && row.contains(p)) by {
                if row.contains(p) {
                    let c = choose|c: int| cols.contains(c) && p == f(c);
                }
            }
        }
        lemma_set_disjoint_lens(upper, row);
        assert(height * width == last * width + width) by (nonlinear_arith)
            requires
                height == last + 1,
        ;
    }
}

/// Where every cell carries a label, the labeled cells are all cells of the grid.
pub proof fn lemma_all_labeled(g: Seq<Seq<char>>, lab: Seq<Seq<Option<usize>>>)
    requires
        is_rectangular(g),
        is_addressable(g),
        scanned_labeled(g, lab, g.len() as int, 0),
    ensures
        labeled_cells(g, lab) == all_cells(g.len(), width_of(g)),
        labeled_cells(g, lab).len() == g.len() * width_of(g),
{
    assert forall|p: Coord| labeled_cells(g, lab).contains(p) <==> all_cells(g.len(), width_of(g)).contains(
        p,
    ) by {
        if p.row < g.len() {
            assert(g[p.row as int].len() == width_of(g));
        }
        if all_cells(g.len(), width_of(g)).contains(p) {
            assert(in_bounds(g, p.row as int, p.col as int));
            assert(scanned_before(p.row as int, p.col as int, g.len() as int, 0));
            assert(is_labeled(lab, p.row as int, p.col as int));
        }
    }
    assert(labeled_cells(g, lab) =~= all_cells(g.len(), width_of(g)));
    lemma_all_cells_len(g.len(), width_of(g));
}

/// Regions without fences have no fence segments and a score of zero.
pub proof fn lemma_unfenced_totals(regions: Seq<Region>, n: int)
    requires
        0 <= n <= regions.len(),
        forall|i: int| 0 <= i < regions.len() ==> (#[trigger] regions[i]).perimeter_segments@.len() == 0,
    ensures
        crate::regions::fences_total(regions, n) == 0,
        crate::regions::score_total(regions, n) == 0,
    decreases n,
{
    if n > 0 {
        lemma_unfenced_totals(regions, n - 1);
        assert(regions[n - 1].perimeter_segments@.len() == 0);
        assert(regions[n - 1].cells@.len() * 0 == 0) by (nonlinear_arith);
    }
}

/// `after` has the regions of `before` with the same labels, characters and cells.
pub open spec fn same_cells(before: Seq<Region>, after: Seq<Region>) -> bool {
    &&& after.len() == before.len()
    &&& forall|j: int|
        0 <= j < before.len() ==> (#[trigger] after[j]).label == before[j].label && after[j].member
            == before[j].member && after[j].cells@ == before[j].cells@
}

/// `after` is `before` with the segment `seg` at the end of the fence of region `id`.
pub open spec fn fenced(before: Seq<Region>, after: Seq<Region>, id: int, seg: (Coord, Direction)) -> bool {
    &&& same_cells(before, after)
    &&& forall|j: int| 0 <= j < before.len() && j != id ==> #[trigger] after[j] == before[j]
    &&& after[id].visited == before[id].visited
    &&& after[id].perimeter_segments@ == before[id].perimeter_segments@.push(seg)
}

/// Regions with the same cells are in order with the same labels.
pub proof fn lemma_same_cells(
    g: Seq<Seq<char>>,
    lab: Seq<Seq<Option<usize>>>,
    before: Seq<Region>,
    after: Seq<Region>,
)
    requires
        regions_ok(g, lab, before),
        labels_listed(g, lab, before),
        same_cells(before, after),
    ensures
        regions_ok(g, lab, after),
        labels_listed(g, lab, after),
        forall|n: int| 0 <= n <= before.len() ==> #[trigger] cells_total(after, n) == cells_total(before, n),
{
    assert forall|i: int| 0 <= i < after.len() implies #[trigger] region_ok(g, lab, after, i) by {
        assert(region_ok(g, lab, before, i));
        assert forall|k: int| 0 <= k < after[i].cells@.len() implies #[trigger] cell_ok(
            g,
            lab,
            after,
            i,
            k,
        ) by {
            assert(cell_ok(g, lab, before, i, k));
        }
        assert forall|k: int| 1 <= k < after[i].cells@.len() implies #[trigger] attached(
            after[i].cells@,
            k,
        ) by {
            assert(attached(before[i].cells@, k));
        }
    }
    assert forall|r: int, c: int| in_bounds(g, r, c) implies #[trigger] label_listed(lab, after, r, c) by {
        assert(label_listed(lab, before, r, c));
    }
    assert forall|n: int| 0 <= n <= before.len() implies #[trigger] cells_total(after, n) == cells_total(
        before,
        n,
    ) by {
        lemma_cells_total_same(before, after, n);
    }
}

/// The count of fence segments and the score over fewer regions are no larger.
pub proof fn lemma_totals_monotone(regions: Seq<Region>, a: int, b: int)
    requires
        a <= b,
    ensures
        fences_total(regions, a) <= fences_total(regions, b),
        score_total(regions, a) <= score_total(regions, b),
    decreases b,
{
    if b > 0 && a < b {
        lemma_totals_monotone(regions, a, b - 1);
    }
}

/// Regions that agree in cells and fences in their first `n` places have the
/// same totals there.
pub proof fn lemma_totals_same(before: Seq<Region>, after: Seq<Region>, n: int)
    requires
        n <= before.len(),
        n <= after.len(),
        forall|j: int|
            0 <= j < n ==> (#[trigger] after[j]).cells@ == before[j].cells@ && after[j].perimeter_segments@
                == before[j].perimeter_segments@,
    ensures
        fences_total(after, n) == fences_total(before, n),
        score_total(after, n) == score_total(before, n),
    decreases n,
{
    if n > 0 {
        lemma_totals_same(before, after, n - 1);
    }
}

/// One more fence segment in a region is one more in all, and raises the
/// score by the region's area.
pub proof fn lemma_totals_fenced(
    before: Seq<Region>,
    after: Seq<Region>,
    id: int,
    seg: (Coord, Direction),
    n: int,
)
    requires
        fenced(before, after, id, seg),
        0 <= id < n <= before.len(),
    ensures
        fences_total(after, n) == fences_total(before, n) + 1,
        score_total(after, n) == score_total(before, n) + before[id].cells@.len(),
    decreases n,
{
    if n - 1 == id {
        lemma_totals_same(before, after, n - 1);
        let a = before[id].cells@.len();
        let f = before[id].perimeter_segments@.len();
        assert(after[id].cells@.len() == a);
        assert(a * (f + 1) == a * f + a) by (nonlinear_arith);
    } else {
        lemma_totals_fenced(before, after, id, seg, n - 1);
    }
}

/// The segment `seg` is a boundary side of one of the first `k` cells, or
/// of cell `k` in one of the first `dn` directions.
pub open spec fn edge_before(
    g: Seq<Seq<char>>,
    lab: Seq<Seq<Option<usize>>>,
    cells: Seq<Coord>,
    k: int,
    dn: int,
    seg: (Coord, Direction),
) -> bool {
    &&& is_edge(g, lab, seg.0, seg.1)
    &&& exists|j: int|
        0 <= j < cells.len() && #[trigger] cells[j] == seg.0 && (j < k || (j == k && fence_dir_index(seg.1)
            < dn))
}

/// The list of boundary sides holds each boundary side of the cells that it
/// covers, once, and nothing else.
pub proof fn lemma_edges_upto(
    g: Seq<Seq<char>>,
    lab: Seq<Seq<Option<usize>>>,
    cells: Seq<Coord>,
    k: int,
    dn: int,
)
    requires
        cells.no_duplicates(),
        0 <= k <= cells.len(),
        0 <= dn <= 4,
        k == cells.len() ==> dn == 0,
    ensures
        edges_upto(g, lab, cells, k, dn).no_duplicates(),
        forall|seg: (Coord, Direction)|
            edges_upto(g, lab, cells, k, dn).contains(seg) <==> edge_before(g, lab, cells, k, dn, seg),
    decreases k, dn,
{
    let edges = edges_upto(g, lab, cells, k, dn);
    if k == 0 && dn == 0 {
        assert forall|seg: (Coord, Direction)| !edge_before(g, lab, cells, k, dn, seg) by {}
    } else if dn == 0 {
        lemma_edges_upto(g, lab, cells, k - 1, 4);
        assert forall|seg: (Coord, Direction)|
            edges.contains(seg) <==> edge_before(g, lab, cells, k, dn, seg) by {
            if edge_before(g, lab, cells, k, dn, seg) {
                let j = choose|j: int|
                    0 <= j < cells.len() && #[trigger] cells[j] == seg.0 && (j < k || (j == k
                        && fence_dir_index(seg.1) < dn));
                assert(j < k - 1 || (j == k - 1 && fence_dir_index(seg.1) < 4));
                assert(edge_before(g, lab, cells, k - 1, 4, seg));
            }
            if edge_before(g, lab, cells, k - 1, 4, seg) {
                let j = choose|j: int|
                    0 <= j < cells.len() && #[trigger] cells[j] == seg.0 && (j < k - 1 || (j == k - 1
                        && fence_dir_index(seg.1) < 4));
                assert(j < k);
            }
        }
    } else {
        lemma_edges_upto(g, lab, cells, k, dn - 1);
        let before = edges_upto(g, lab, cells, k, dn - 1);
        let here = (cells[k], fence_dir(dn - 1));
        assert(fence_dir_index(fence_dir(dn - 1)) == dn - 1);
        if is_edge(g, lab, cells[k], fence_dir(dn - 1)) {
            assert(edges == before.push(here));
            assert(!before.contains(here)) by {
                if before.contains(here) {
                    assert(edge_before(g, lab, cells, k, dn - 1, here));
                    let j = choose|j: int|
                        0 <= j < cells.len() && #[trigger] cells[j] == here.0 && (j < k || (j == k
                            && fence_dir_index(here.1) < dn - 1));
                    assert(cells[j] == cells[k]);
                }
            }
            assert forall|a: int, b: int| 0 <= a < edges.len() && 0 <= b < edges.len() && a != b implies edges[a]
                != edges[b] by {
                if a < before.len() && b < before.len() {
                    assert(before[a] != before[b]);
                } else if a < before.len() {
                    assert(before.contains(before[a]));
                } else {
                    assert(before.contains(before[b]));
                }
            }
            assert forall|seg: (Coord, Direction)|
                edges.contains(seg) <==> edge_before(g, lab, cells, k, dn, seg) by {
                if edges.contains(seg) {
                    let i = choose|i: int| 0 <= i < edges.len() && edges[i] == seg;
                    if i < before.len() {
                        assert(before[i] == seg);
                        assert(before.contains(seg));
                        assert(edge_before(g, lab, cells, k, dn - 1, seg));
                        let j = choose|j: int|
                            0 <= j < cells.len() && #[trigger] cells[j] == seg.0 && (j < k || (j == k
                                && fence_dir_index(seg.1) < dn - 1));
                        assert(j < k || (j == k && fence_dir_index(seg.1) < dn));
                    } else {
                        assert(seg == here);
                        assert(cells[k] == seg.0);
                    }
                }
                if edge_before(g, lab, cells, k, dn, seg) {
                    let j = choose|j: int|
                        0 <= j < cells.len() && #[trigger] cells[j] == seg.0 && (j < k || (j == k
                            && fence_dir_index(seg.1) < dn));
                    if j == k && fence_dir_index(seg.1) == dn - 1 {
                        assert(seg.1 == fence_dir(dn - 1));
                        assert(seg == here);
                        assert(edges[before.len() as int] == seg);
                    } else {
                        assert(edge_before(g, lab, cells, k, dn - 1, seg));
                        assert(before.contains(seg));
                        let i = choose|i: int| 0 <= i < before.len() && before[i] == seg;
                        assert(edges[i] == seg);
                    }
                }
            }
        } else {
            assert(edges == before);
            assert forall|seg: (Coord, Direction)|
                edges.contains(seg) <==> edge_before(g, lab, cells, k, dn, seg) by {
                if edge_before(g, lab, cells, k, dn, seg) {
                    let j = choose|j: int|
                        0 <= j < cells.len() && #[trigger] cells[j] == seg.0 && (j < k || (j == k
                            && fence_dir_index(seg.1) < dn));
                    if j == k && fence_dir_index(seg.1) == dn - 1 {
                        assert(seg.1 == fence_dir(dn - 1));
                        assert(false);
                    }
                    assert(edge_before(g, lab, cells, k, dn - 1, seg));
                }
                if edge_before(g, lab, cells, k, dn - 1, seg) {
                    let j = choose|j: int|
                        0 <= j < cells.len() && #[trigger] cells[j] == seg.0 && (j < k || (j == k
                            && fence_dir_index(seg.1) < dn - 1));
                    assert(j < k || (j == k && fence_dir_index(seg.1) < dn));
                }
            }
        }
    }
}

/// The index of a cell of `cells`, among the first `n`, that no other of them lies above.
pub open spec fn topmost(cells: Seq<Coord>, n: int) -> int
    decreases n,
{
    if n <= 1 {
        0
    } else {
        let best = topmost(cells, n - 1);
        if cells[n - 1].row < cells[best].row {
            n - 1
        } else {
            best
        }
    }
}

/// No cell among the first `n` lies above the topmost of them.
pub proof fn lemma_topmost(cells: Seq<Coord>, n: int)
    requires
        1 <= n <= cells.len(),
    ensures
        0 <= topmost(cells, n) < n,
        forall|k: int| 0 <= k < n ==> cells[topmost(cells, n)].row <= (#[trigger] cells[k]).row,
    decreases n,
{
    if n > 1 {
        lemma_topmost(cells, n - 1);
    }
}

/// A region in order has a boundary side: the north side of a topmost cell.
pub proof fn lemma_region_has_edge(
    g: Seq<Seq<char>>,
    lab: Seq<Seq<Option<usize>>>,
    regions: Seq<Region>,
    i: int,
)
    requires
        is_addressable(g),
        labels_fit(g, lab),
        regions_ok(g, lab, regions),
        labels_listed(g, lab, regions),
        0 <= i < regions.len(),
    ensures
        edges_of(g, lab, regions[i].cells@).len() >= 1,
{
    let cells = regions[i].cells@;
    assert(region_ok(g, lab, regions, i));
    lemma_topmost(cells, cells.len() as int);
    let t = topmost(cells, cells.len() as int);
    let p = cells[t];
    assert(cell_ok(g, lab, regions, i, t));
    let seg = (p, Direction::North);
    assert(is_edge(g, lab, p, Direction::North)) by {
        let nr = p.row - 1;
        let nc = p.col as int;
        if in_bounds(g, nr, nc) && lab[nr][nc] == lab[p.row as int][p.col as int] {
            assert(label_listed(lab, regions, nr, nc));
            let q = Coord { row: nr as usize, col: nc as usize };
            let k = choose|k: int| 0 <= k < cells.len() && cells[k] == q;
            assert(cells[t].row <= cells[k].row);
            assert(false);
        }
    }
    lemma_edges_upto(g, lab, cells, cells.len() as int, 0);
    assert(cells[t] == seg.0 && t < cells.len());
    assert(edge_before(g, lab, cells, cells.len() as int, 0, seg));
    let edges = edges_of(g, lab, cells);
    assert(edges.contains(seg));
}

} // verus!
