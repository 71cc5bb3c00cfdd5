//! A set of grid cells, kept as one flag per cell.

use crate::grid::{row_major_lt, scanned_before, Coord};
use vstd::prelude::*;
use vstd::set_lib::{lemma_int_range, lemma_len_subset, lemma_map_size, set_int_range};

verus! {

/// A set of cells of a grid of fixed height and width.
pub struct CellSet {
    rows: Vec<Vec<bool>>,
    height: usize,
    width: usize,
}

impl View for CellSet {
    type V = Set<Coord>;

    closed spec fn view(&self) -> Set<Coord> {
        Set::new(
            |p: Coord|
                p.row < self.rows.len() && p.col < self.rows[p.row as int].len()
                    && self.rows[p.row as int][p.col as int],
        )
    }
}

/// A finite set of cells that all lie in the first `height` rows and the first
/// `width` columns has at most `height * width` members.
pub proof fn lemma_cells_len_bound(cells: Set<Coord>, height: nat, width: nat)
    requires
        cells.finite(),
        forall|p: Coord| #[trigger] cells.contains(p) ==> p.row < height && p.col < width,
    ensures
        cells.len() <= height * width,
    decreases height,
{
    if height == 0 {
        assert(cells =~= Set::<Coord>::empty());
    } else {
        let last = (height - 1) as nat;
        let upper = cells.filter(|p: Coord| p.row < last);
        let row = cells.filter(|p: Coord| p.row == last);
        cells.lemma_len_filter(|p: Coord| p.row < last);
        cells.lemma_len_filter(|p: Coord| p.row == last);
        lemma_cells_len_bound(upper, last, width);
        assert(cells =~= upper + row);
        assert(upper.disjoint(row));
        vstd::set_lib::lemma_set_disjoint_lens(upper, row);
        let f = |p: Coord| p.col as int;
        let cols = row.map(f);
        assert(vstd::relations::injective_on(f, row));
        lemma_map_size(row, cols, f);
        lemma_int_range(0, width as int);
        assert(cols.subset_of(set_int_range(0, width as int)));
        lemma_len_subset(cols, set_int_range(0, width as int));
        assert(height * width == last * width + width) by (nonlinear_arith)
            requires
                height == last + 1,
        ;
    }
}

impl CellSet {
    /// There is one flag for each cell.
    pub closed spec fn wf(&self) -> bool {
        &&& self.rows.len() == self.height
        &&& forall|i: int| 0 <= i < self.rows.len() ==> (#[trigger] self.rows[i]).len() == self.width
        &&& self@.finite()
    }

    /// The number of rows of the grid.
    pub closed spec fn spec_height(&self) -> nat {
        self.height as nat
    }

    /// The number of columns of the grid.
    pub closed spec fn spec_width(&self) -> nat {
        self.width as nat
    }

    /// Every member is a cell of the grid, so the members are at most as many
    /// as the cells.
    pub proof fn lemma_members_in_range(&self)
        requires
            self.wf(),
        ensures
            forall|p: Coord| #[trigger]
                self@.contains(p) ==> p.row < self.spec_height() && p.col < self.spec_width(),
            self@.finite(),
            self@.len() <= self.spec_height() * self.spec_width(),
    {
        lemma_cells_len_bound(self@, self.spec_height(), self.spec_width());
    }

    /// The empty set over a grid of `height` by `width` cells.
    pub fn new(height: usize, width: usize) -> (s: CellSet)
        ensures
            s.wf(),
            s@ == Set::<Coord>::empty(),
            s.spec_height() == height,
            s.spec_width() == width,
    {
        let mut rows: Vec<Vec<bool>> = Vec::new();
        let mut r: usize = 0;
        while r < height
            invariant
                r <= height,
                rows.len() == r,
                forall|i: int| 0 <= i < r ==> (#[trigger] rows[i]).len() == width,
                forall|i: int, j: int| 0 <= i < r && 0 <= j < width ==> !(#[trigger] rows[i][j]),
            decreases height - r,
        {
            let mut row: Vec<bool> = Vec::new();
            let mut c: usize = 0;
            while c < width
                invariant
                    c <= width,
                    row.len() == c,
                    forall|j: int| 0 <= j < c ==> !(#[trigger] row[j]),
                decreases width - c,
            {
                row.push(false);
                c += 1;
            }
            rows.push(row);
            r += 1;
        }
        let s = CellSet { rows, height, width };
        assert(s@ =~= Set::<Coord>::empty());
        s
    }

    /// Whether `at` is a member.
    pub fn contains(&self, at: Coord) -> (b: bool)
        requires
            self.wf(),
        ensures
            b == self@.contains(at),
    {
        at.row < self.height && at.col < self.width && self.rows[at.row][at.col]
    }

    /// Adds the cell `at`.
    pub fn insert(&mut self, at: Coord)
        requires
            old(self).wf(),
            at.row < old(self).spec_height(),
            at.col < old(self).spec_width(),
        ensures
            final(self).wf(),
            final(self).spec_height() == old(self).spec_height(),
            final(self).spec_width() == old(self).spec_width(),
            final(self)@ == old(self)@.insert(at),
    {
        self.rows[at.row][at.col] = true;
        assert(self@ =~= old(self)@.insert(at));
    }

    /// The number of members.
    pub fn count(&self) -> (n: usize)
        requires
            self.wf(),
            self.spec_height() * self.spec_width() <= usize::MAX,
        ensures
            n == self@.len(),
            n <= self.spec_height() * self.spec_width(),
    {
        let mut n: usize = 0;
        let ghost mut seen: Set<Coord> = Set::empty();
        let mut r: usize = 0;
        while r < self.height
            invariant
                self.wf(),
                r <= self.height,
                self.height * self.width <= usize::MAX,
                seen.finite(),
                n == seen.len(),
                n <= r * self.width,
                seen == Set::new(
                    |p: Coord| self@.contains(p) && scanned_before(p.row as int, p.col as int, r as int, 0),
                ),
            decreases self.height - r,
        {
            let mut c: usize = 0;
            proof {
                assert((r + 1) * self.width == r * self.width + self.width) by (nonlinear_arith);
                assert((r + 1) * self.width <= self.height * self.width) by (nonlinear_arith)
                    requires
                        r + 1 <= self.height,
                ;
            }
            while c < self.width
                invariant
                    self.wf(),
                    r < self.height,
                    c <= self.width,
                    r * self.width + self.width <= usize::MAX,
                    seen.finite(),
                    n == seen.len(),
                    n <= r * self.width + c,
                    seen == Set::new(
                        |p: Coord|
                            self@.contains(p) && scanned_before(
                                p.row as int,
                                p.col as int,
                                r as int,
                                c as int,
                            ),
                    ),
                decreases self.width - c,
            {
                let ghost before = seen;
                if self.rows[r][c] {
                    n += 1;
                    proof {
                        seen = seen.insert(Coord { row: r, col: c });
                    }
                }
                c += 1;
                assert(seen =~= Set::new(
                    |p: Coord|
                        self@.contains(p) && scanned_before(p.row as int, p.col as int, r as int, c as int),
                ));
            }
            r += 1;
            assert(seen =~= Set::new(
                |p: Coord| self@.contains(p) && scanned_before(p.row as int, p.col as int, r as int, 0),
            ));
        }
        assert(seen =~= self@);
        proof {
            assert(r * self.width == self.height * self.width);
        }
        n
    }

    /// The members in row-major order.
    pub fn to_vec(&self) -> (members: Vec<Coord>)
        requires
            self.wf(),
        ensures
            members@.to_set() == self@,
            members@.no_duplicates(),
            forall|i: int, j: int|
                0 <= i < j < members@.len() ==> row_major_lt(#[trigger] members@[i], #[trigger] members@[j]),
    {
        let mut members: Vec<Coord> = Vec::new();
        let mut r: usize = 0;
        while r < self.height
            invariant
                self.wf(),
                r <= self.height,
                forall|i: int|
                    0 <= i < members@.len() ==> self@.contains(#[trigger] members@[i]) && scanned_before(
                        members@[i].row as int,
                        members@[i].col as int,
                        r as int,
                        0,
                    ),
                forall|p: Coord|
                    self@.contains(p) && scanned_before(p.row as int, p.col as int, r as int, 0)
                        ==> #[trigger] members@.contains(p),
                forall|i: int, j: int|
                    0 <= i < j < members@.len() ==> row_major_lt(
                        #[trigger] members@[i],
                        #[trigger] members@[j],
                    ),
            decreases self.height - r,
        {
            let mut c: usize = 0;
            while c < self.width
                invariant
                    self.wf(),
                    r < self.height,
                    c <= self.width,
                    forall|i: int|
                        0 <= i < members@.len() ==> self@.contains(#[trigger] members@[i])
                            && scanned_before(
                            members@[i].row as int,
                            members@[i].col as int,
                            r as int,
                            c as int,
                        ),
                    forall|p: Coord|
                        self@.contains(p) && scanned_before(p.row as int, p.col as int, r as int, c as int)
                            ==> #[trigger] members@.contains(p),
                    forall|i: int, j: int|
                        0 <= i < j < members@.len() ==> row_major_lt(
                            #[trigger] members@[i],
                            #[trigger] members@[j],
                        ),
                decreases self.width - c,
            {
                let ghost before = members@;
                if self.rows[r][c] {
                    members.push(Coord { row: r, col: c });
                    proof {
                        assert forall|p: Coord|
                            self@.contains(p) && scanned_before(
                                p.row as int,
                                p.col as int,
                                r as int,
                                c as int + 1,
                            ) implies #[trigger] members@.contains(p) by {
                            if p.row == r && p.col == c {
                                assert(members@[before.len() as int] == p);
                            } else {
                                assert(before.contains(p));
                                let k = choose|k: int| 0 <= k < before.len() && before[k] == p;
                                assert(members@[k] == p);
                            }
                        }
                    }
                }
                c += 1;
            }
            r += 1;
        }
        proof {
            assert forall|i: int, j: int|
                0 <= i < members@.len() && 0 <= j < members@.len() && i != j implies members@[i]
                != members@[j] by {
                if i < j {
                    assert(row_major_lt(members@[i], members@[j]));
                } else {
                    assert(row_major_lt(members@[j], members@[i]));
                }
            }
            assert(members@.to_set() =~= self@);
        }
        members
    }
}

} // verus!
