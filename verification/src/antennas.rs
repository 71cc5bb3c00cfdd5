//! Antennas: the cells of a grid that lie in line with two antennas of one
//! frequency, at whole steps of their distance beyond the second one.

use crate::cell_set::CellSet;
use crate::grid::{in_bounds, is_rectangular, width_of, Coord, Grid};
use vstd::prelude::*;

verus! {

/// The character of a cell without an antenna.
pub const NO_ANTENNA: char = '.';

/// The cell `p` holds an antenna.
pub open spec fn is_antenna(m: Seq<Seq<char>>, p: Coord) -> bool {
    in_bounds(m, p.row as int, p.col as int) && m[p.row as int][p.col as int] != NO_ANTENNA
}

/// `a` and `b` are two antennas of one frequency.
pub open spec fn is_pair(m: Seq<Seq<char>>, a: Coord, b: Coord) -> bool {
    &&& is_antenna(m, a)
    &&& is_antenna(m, b)
    &&& a != b
    &&& m[a.row as int][a.col as int] == m[b.row as int][b.col as int]
}

/// The cell `p` lies `k` times the way from `a` to `b` beyond `b`.
pub open spec fn lies_beyond(a: Coord, b: Coord, k: int, p: Coord) -> bool {
    &&& p.row == b.row + k * (b.row - a.row)
    &&& p.col == b.col + k * (b.col - a.col)
}

/// The cell `p` of the grid lies in line with two antennas of one frequency,
/// at the second one or a whole number of their distances beyond it.
pub open spec fn is_antinode(m: Seq<Seq<char>>, p: Coord) -> bool {
    in_bounds(m, p.row as int, p.col as int) && exists|a: Coord, b: Coord, k: int|
        is_pair(m, a, b) && 0 <= k && #[trigger] lies_beyond(a, b, k, p)
}

/// The antinodes of a grid.
pub open spec fn antinodes(m: Seq<Seq<char>>) -> Set<Coord> {
    Set::new(|p: Coord| is_antinode(m, p))
}

/// The antinodes that belong to a pair `(a, b)` of antennas where `a` is one
/// of the first `i` antennas of `list`, or antenna `i` with `b` among the first `j`.
pub open spec fn found_by(m: Seq<Seq<char>>, list: Seq<Coord>, i: int, j: int, p: Coord) -> bool {
    in_bounds(m, p.row as int, p.col as int) && exists|x: int, y: int, k: int|
        0 <= x < list.len() && 0 <= y < list.len() && (x < i || (x == i && y < j)) && is_pair(
            m,
            list[x],
            list[y],
        ) && 0 <= k && #[trigger] lies_beyond(list[x], list[y], k, p)
}

/// The cells with an antenna, in row-major order.
fn find_antennas(grid: &Grid) -> (list: Vec<Coord>)
    requires
        grid.wf(),
    ensures
        forall|i: int| 0 <= i < list@.len() ==> is_antenna(grid@, #[trigger] list@[i]),
        forall|p: Coord| is_antenna(grid@, p) ==> #[trigger] list@.contains(p),
{
    let found = grid.find_all(|ch: char| -> (b: bool)
        ensures
            b == (ch != NO_ANTENNA),
        { ch != NO_ANTENNA });
    proof {
        assert forall|p: Coord| is_antenna(grid@, p) implies #[trigger] found@.contains(p) by {
            if !found@.contains(p) {
                assert(grid@[p.row as int][p.col as int] == NO_ANTENNA);
            }
        }
    }
    found
}

/// Marks the cells that lie in line with `a` and `b` at `b` and beyond it,
/// as far as the grid goes.
fn mark_line(grid: &Grid, a: Coord, b: Coord, seen: &mut CellSet)
    requires
        grid.wf(),
        old(seen).wf(),
        old(seen).spec_height() == grid@.len(),
        old(seen).spec_width() == width_of(grid@),
        in_bounds(grid@, a.row as int, a.col as int),
        in_bounds(grid@, b.row as int, b.col as int),
        a != b,
    ensures
        final(seen).wf(),
        final(seen).spec_height() == old(seen).spec_height(),
        final(seen).spec_width() == old(seen).spec_width(),
        forall|p: Coord|
            final(seen)@.contains(p) <==> (old(seen)@.contains(p) || (in_bounds(
                grid@,
                p.row as int,
                p.col as int,
            ) && exists|k: int| 0 <= k && #[trigger] lies_beyond(a, b, k, p))),
{
    let h = grid.height() as i128;
    let w = grid.width() as i128;
    let d_row: i128 = b.row as i128 - a.row as i128;
    let d_col: i128 = b.col as i128 - a.col as i128;
    let mut row: i128 = b.row as i128;
    let mut col: i128 = b.col as i128;
    let ghost mut k: int = 0;
    proof {
        grid.lemma_wf_view();
        assert(grid@[b.row as int].len() == w);
        assert(grid@[a.row as int].len() == w);
        assert(0 * (b.row - a.row) == 0 && 0 * (b.col - a.col) == 0) by (nonlinear_arith);
    }
    while row >= 0 && row < h && col >= 0 && col < w
        invariant
            grid.wf(),
            h == grid@.len(),
            w == width_of(grid@),
            h <= usize::MAX,
            w <= usize::MAX,
            is_rectangular(grid@),
            seen.wf(),
            seen.spec_height() == grid@.len(),
            seen.spec_width() == width_of(grid@),
            d_row == b.row - a.row,
            d_col == b.col - a.col,
            d_row != 0 || d_col != 0,
            -h < d_row < h,
            -w < d_col < w,
            0 <= k,
            row == b.row + k * d_row,
            col == b.col + k * d_col,
            -h <= row <= 2 * h,
            -w <= col <= 2 * w,
            forall|j: int| 0 <= j < k ==> 0 <= b.row + #[trigger] (j * d_row) < h && 0 <= b.col + j * d_col < w,
            forall|p: Coord|
                seen@.contains(p) <==> (old(seen)@.contains(p) || (in_bounds(
                    grid@,
                    p.row as int,
                    p.col as int,
                ) && exists|j: int| 0 <= j < k && #[trigger] lies_beyond(a, b, j, p))),
        decreases line_left(row as int, col as int, d_row as int, d_col as int, h as int, w as int),
    {
        let here = Coord { row: row as usize, col: col as usize };
        let ghost left = line_left(row as int, col as int, d_row as int, d_col as int, h as int, w as int);
        assert(left > 0);
        assert(line_left(row + d_row, col + d_col, d_row as int, d_col as int, h as int, w as int) < left);
        let ghost before = seen@;
        seen.insert(here);
        proof {
            assert(lies_beyond(a, b, k, here));
            assert((k + 1) * d_row == k * d_row + d_row) by (nonlinear_arith);
            assert((k + 1) * d_col == k * d_col + d_col) by (nonlinear_arith);
            assert forall|p: Coord|
                seen@.contains(p) <==> (old(seen)@.contains(p) || (in_bounds(
                    grid@,
                    p.row as int,
                    p.col as int,
                ) && exists|j: int| 0 <= j < k + 1 && #[trigger] lies_beyond(a, b, j, p))) by {
                if before.contains(p) && !old(seen)@.contains(p) {
                    let j = choose|j: int| 0 <= j < k && #[trigger] lies_beyond(a, b, j, p);
                    assert(0 <= j < k + 1 && lies_beyond(a, b, j, p));
                }
                if in_bounds(grid@, p.row as int, p.col as int) && exists|j: int|
                    0 <= j < k + 1 && #[trigger] lies_beyond(a, b, j, p) {
                    let j = choose|j: int| 0 <= j < k + 1 && #[trigger] lies_beyond(a, b, j, p);
                    if j < k {
                        assert(before.contains(p));
                    } else {
                        assert(p == here);
                    }
                }
            }
            k = k + 1;
        }
        row = row + d_row;
        col = col + d_col;
    }
    proof {
        assert forall|p: Coord|
            seen@.contains(p) <==> (old(seen)@.contains(p) || (in_bounds(
                grid@,
                p.row as int,
                p.col as int,
            ) && exists|j: int| 0 <= j && #[trigger] lies_beyond(a, b, j, p))) by {
            if in_bounds(grid@, p.row as int, p.col as int) && exists|j: int|
                0 <= j && #[trigger] lies_beyond(a, b, j, p) {
                let j = choose|j: int| 0 <= j && #[trigger] lies_beyond(a, b, j, p);
                assert(grid@[p.row as int].len() == w);
                if j >= k {
                    lemma_line_leaves(b.row as int, b.col as int, d_row as int, d_col as int, h as int, w as int, k, j);
                    assert(false);
                }
            }
            if seen@.contains(p) && !old(seen)@.contains(p) {
                let j = choose|j: int| 0 <= j < k && #[trigger] lies_beyond(a, b, j, p);
                assert(0 <= j && lies_beyond(a, b, j, p));
            }
        }
    }
}

/// A bound on the steps that a line from `(row, col)` takes before it leaves
/// a grid of `h` rows and `w` columns.
spec fn line_left(row: int, col: int, d_row: int, d_col: int, h: int, w: int) -> nat {
    let left = if d_row > 0 {
        h - row
    } else if d_row < 0 {
        row + 1
    } else if d_col > 0 {
        w - col
    } else {
        col + 1
    };
    if left < 0 {
        0
    } else {
        left as nat
    }
}

/// A line that has left the grid at its step `k` is outside at each later step.
proof fn lemma_line_leaves(r: int, c: int, d_row: int, d_col: int, h: int, w: int, k: int, j: int)
    requires
        0 <= r < h,
        0 <= c < w,
        0 <= k <= j,
        !(0 <= r + k * d_row < h && 0 <= c + k * d_col < w),
    ensures
        !(0 <= r + j * d_row < h && 0 <= c + j * d_col < w),
{
    if r + k * d_row < 0 {
        assert(d_row < 0) by (nonlinear_arith)
            requires
                r + k * d_row < 0,
                r >= 0,
                k >= 0,
        ;
        assert(j * d_row <= k * d_row) by (nonlinear_arith)
            requires
                k <= j,
                d_row < 0,
        ;
    } else if r + k * d_row >= h {
        assert(d_row > 0) by (nonlinear_arith)
            requires
                r + k * d_row >= h,
                r < h,
                k >= 0,
        ;
        assert(j * d_row >= k * d_row) by (nonlinear_arith)
            requires
                k <= j,
                d_row > 0,
        ;
    } else if c + k * d_col < 0 {
        assert(d_col < 0) by (nonlinear_arith)
            requires
                c + k * d_col < 0,
                c >= 0,
                k >= 0,
        ;
        assert(j * d_col <= k * d_col) by (nonlinear_arith)
            requires
                k <= j,
                d_col < 0,
        ;
    } else {
        assert(d_col > 0) by (nonlinear_arith)
            requires
                c + k * d_col >= w,
                c < w,
                k >= 0,
        ;
        assert(j * d_col >= k * d_col) by (nonlinear_arith)
            requires
                k <= j,
                d_col > 0,
        ;
    }
}

/// The antinodes of the grid: the cells that lie in line with two antennas
/// of one frequency, at the second one or a whole number of their distances
/// beyond it.
pub fn find_antinodes(grid: &Grid) -> (seen: CellSet)
    requires
        grid.wf(),
    ensures
        seen.wf(),
        seen.spec_height() == grid@.len(),
        seen.spec_width() == width_of(grid@),
        seen@ == antinodes(grid@),
{
    let list = find_antennas(grid);
    let mut seen = CellSet::new(grid.height(), grid.width());
    let n = list.len();
    let mut i: usize = 0;
    while i < n
        invariant
            grid.wf(),
            i <= n,
            n == list@.len(),
            forall|x: int| 0 <= x < list@.len() ==> is_antenna(grid@, #[trigger] list@[x]),
            seen.wf(),
            seen.spec_height() == grid@.len(),
            seen.spec_width() == width_of(grid@),
            forall|p: Coord| seen@.contains(p) <==> found_by(grid@, list@, i as int, 0, p),
        decreases n - i,
    {
        let a = list[i];
        let mut j: usize = 0;
        while j < n
            invariant
                grid.wf(),
                i < n,
                j <= n,
                n == list@.len(),
                a == list@[i as int],
                forall|x: int| 0 <= x < list@.len() ==> is_antenna(grid@, #[trigger] list@[x]),
                seen.wf(),
                seen.spec_height() == grid@.len(),
                seen.spec_width() == width_of(grid@),
                forall|p: Coord| seen@.contains(p) <==> found_by(grid@, list@, i as int, j as int, p),
            decreases n - j,
        {
            let b = list[j];
            let ghost before = seen@;
            let same = a != b && grid.at(a.row, a.col) == grid.at(b.row, b.col);
            if same {
                mark_line(grid, a, b, &mut seen);
            }
            proof {
                assert(same == is_pair(grid@, a, b));
                assert forall|p: Coord|
                    seen@.contains(p) <==> found_by(grid@, list@, i as int, j as int + 1, p) by {
                    if found_by(grid@, list@, i as int, j as int + 1, p) {
                        let (x, y, k) = choose|x: int, y: int, k: int|
                            0 <= x < list@.len() && 0 <= y < list@.len() && (x < i || (x == i && y < j
                                + 1)) && is_pair(grid@, list@[x], list@[y]) && 0 <= k
                                && #[trigger] lies_beyond(list@[x], list@[y], k, p);
                        if x == i && y == j {
                            assert(lies_beyond(a, b, k, p));
                        } else {
                            assert(x < i || (x == i && y < j));
                            assert(found_by(grid@, list@, i as int, j as int, p));
                        }
                    }
                    if before.contains(p) {
                        assert(found_by(grid@, list@, i as int, j as int, p));
                        let (x, y, k) = choose|x: int, y: int, k: int|
                            0 <= x < list@.len() && 0 <= y < list@.len() && (x < i || (x == i && y
                                < j)) && is_pair(grid@, list@[x], list@[y]) && 0 <= k
                                && #[trigger] lies_beyond(list@[x], list@[y], k, p);
                        assert((x < i || (x == i && y < j + 1)) && lies_beyond(list@[x], list@[y], k, p));
                    }
                    if seen@.contains(p) && !before.contains(p) {
                        let k = choose|k: int| 0 <= k && #[trigger] lies_beyond(a, b, k, p);
                        assert(lies_beyond(list@[i as int], list@[j as int], k, p));
                    }
                }
            }
            j += 1;
        }
        proof {
            assert forall|p: Coord| seen@.contains(p) <==> found_by(grid@, list@, i as int + 1, 0, p) by {
                if found_by(grid@, list@, i as int, n as int, p) {
                    let (x, y, k) = choose|x: int, y: int, k: int|
                        0 <= x < list@.len() && 0 <= y < list@.len() && (x < i || (x == i && y < n))
                            && is_pair(grid@, list@[x], list@[y]) && 0 <= k && #[trigger] lies_beyond(
                            list@[x],
                            list@[y],
                            k,
                            p,
                        );
                    assert((x < i + 1 || (x == i + 1 && y < 0)) && lies_beyond(list@[x], list@[y], k, p));
                }
                if found_by(grid@, list@, i as int + 1, 0, p) {
                    let (x, y, k) = choose|x: int, y: int, k: int|
                        0 <= x < list@.len() && 0 <= y < list@.len() && (x < i + 1 || (x == i + 1 && y
                            < 0)) && is_pair(grid@, list@[x], list@[y]) && 0 <= k
                            && #[trigger] lies_beyond(list@[x], list@[y], k, p);
                    assert((x < i || (x == i && y < n)) && lies_beyond(list@[x], list@[y], k, p));
                }
            }
        }
        i += 1;
    }
    proof {
        assert forall|p: Coord| seen@.contains(p) <==> antinodes(grid@).contains(p) by {
            if found_by(grid@, list@, n as int, 0, p) {
                let (x, y, k) = choose|x: int, y: int, k: int|
                    0 <= x < list@.len() && 0 <= y < list@.len() && (x < n || (x == n && y < 0))
                        && is_pair(grid@, list@[x], list@[y]) && 0 <= k && #[trigger] lies_beyond(
                        list@[x],
                        list@[y],
                        k,
                        p,
                    );
                assert(is_pair(grid@, list@[x], list@[y]) && lies_beyond(list@[x], list@[y], k, p));
            }
            if is_antinode(grid@, p) {
                let (a, b, k) = choose|a: Coord, b: Coord, k: int|
                    is_pair(grid@, a, b) && 0 <= k && #[trigger] lies_beyond(a, b, k, p);
                assert(list@.contains(a) && list@.contains(b));
                let x = choose|x: int| 0 <= x < list@.len() && list@[x] == a;
                let y = choose|y: int| 0 <= y < list@.len() && list@[y] == b;
                assert(x < n && lies_beyond(list@[x], list@[y], k, p));
            }
        }
        assert(seen@ =~= antinodes(grid@));
    }
    seen
}

/// The number of antinodes of the grid.
pub fn count_antinodes(grid: &Grid) -> (n: usize)
    requires
        grid.wf(),
        grid@.len() * width_of(grid@) <= usize::MAX,
    ensures
        n == antinodes(grid@).len(),
{
    let seen = find_antinodes(grid);
    seen.count()
}

} // verus!
