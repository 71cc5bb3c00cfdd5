//! Rectangular character grids with bounds-checked access.

use crate::text::{join_lines, join_rows, push_char, split_lines, split_text};
use vstd::prelude::*;

verus! {

/// A cell position: row and column, both counted from zero.
#[derive(Clone, Copy, Debug, PartialEq, Eq, Hash, Structural)]
pub struct Coord {
    pub row: usize,
    pub col: usize,
}

/// The ways in which a grid operation can fail.
#[derive(Clone, Copy, Debug, PartialEq, Eq, Structural)]
pub enum GridError {
    /// A position outside `[0, height) x [0, width)` was accessed.
    OutOfBounds,
    /// The rows handed to a constructor do not all have the same length.
    MalformedGrid,
    /// A cell holds a character that the algorithm does not know.
    InvalidCharacter,
}

/// The rows of a character matrix as sequences.
pub open spec fn matrix_view(cells: &Vec<Vec<char>>) -> Seq<Seq<char>> {
    Seq::new(cells.len() as nat, |i: int| cells[i]@)
}

/// The characters of each line.
pub open spec fn lines_view(lines: &Vec<String>) -> Seq<Seq<char>> {
    Seq::new(lines.len() as nat, |i: int| lines[i]@)
}

/// Every row is as long as the first one.
pub open spec fn is_rectangular(m: Seq<Seq<char>>) -> bool {
    forall|i: int| 0 <= i < m.len() ==> (#[trigger] m[i]).len() == m[0].len()
}

/// The length of the first row, or zero where there is none.
pub open spec fn width_of(m: Seq<Seq<char>>) -> nat {
    if m.len() == 0 {
        0
    } else {
        m[0].len()
    }
}

/// Every row and column index of `m` fits in a `usize`, as it does for the view
/// of any matrix in memory.
pub open spec fn is_addressable(m: Seq<Seq<char>>) -> bool {
    &&& m.len() <= usize::MAX
    &&& forall|i: int| 0 <= i < m.len() ==> (#[trigger] m[i]).len() <= usize::MAX
}

/// The view of a matrix in memory is addressable.
pub proof fn lemma_matrix_view_addressable(cells: &Vec<Vec<char>>)
    ensures
        is_addressable(matrix_view(cells)),
{
    assert forall|i: int| 0 <= i < matrix_view(cells).len() implies (#[trigger] matrix_view(cells)[i]).len()
        <= usize::MAX by {
        assert(matrix_view(cells)[i] == cells[i]@);
        assert(cells[i]@.len() == cells[i].len());
    }
}

/// Row `r` exists and has a column `c`.
pub open spec fn in_bounds(m: Seq<Seq<char>>, r: int, c: int) -> bool {
    0 <= r < m.len() && 0 <= c < m[r].len()
}

/// The cell at `(r, c)` exists and holds `ch`.
pub open spec fn cell_is(m: Seq<Seq<char>>, r: int, c: int, ch: char) -> bool {
    in_bounds(m, r, c) && m[r][c] == ch
}

/// `(r, c)` comes before `(end_r, end_c)` in row-major order.
pub open spec fn scanned_before(r: int, c: int, end_r: int, end_c: int) -> bool {
    r < end_r || (r == end_r && c < end_c)
}

/// The positions of `ch` in `m` among those before `(end_r, end_c)`, in row-major order.
pub open spec fn positions_of(m: Seq<Seq<char>>, ch: char, end_r: int, end_c: int) -> Seq<Coord>
    decreases end_r, end_c,
{
    if end_r < 0 || end_c < 0 || (end_r == 0 && end_c == 0) {
        Seq::empty()
    } else if end_c == 0 {
        positions_of(m, ch, end_r - 1, width_of(m) as int)
    } else {
        let before = positions_of(m, ch, end_r, end_c - 1);
        if cell_is(m, end_r, end_c - 1, ch) {
            before.push(Coord { row: end_r as usize, col: (end_c - 1) as usize })
        } else {
            before
        }
    }
}

/// One for a condition that holds, zero for one that does not.
pub open spec fn indicator(b: bool) -> int {
    if b {
        1
    } else {
        0
    }
}

/// The sum of `f(r, c)` over the first `end_c` columns of row `r`.
pub open spec fn row_sum(f: spec_fn(int, int) -> int, r: int, end_c: int) -> int
    decreases end_c,
{
    if end_c <= 0 {
        0
    } else {
        row_sum(f, r, end_c - 1) + f(r, end_c - 1)
    }
}

/// The sum of `f(r, c)` over all cells of the first `end_r` rows of `m`.
pub open spec fn matrix_sum(m: Seq<Seq<char>>, f: spec_fn(int, int) -> int, end_r: int) -> int
    decreases end_r,
{
    if end_r <= 0 {
        0
    } else {
        matrix_sum(m, f, end_r - 1) + row_sum(f, end_r - 1, m[end_r - 1].len() as int)
    }
}

/// A sum of non-negative terms over part of a row is non-negative and at most
/// the sum over a longer part.
pub proof fn lemma_row_sum_monotone(f: spec_fn(int, int) -> int, r: int, a: int, b: int)
    requires
        forall|c: int| 0 <= c < b ==> #[trigger] f(r, c) >= 0,
        a <= b,
    ensures
        0 <= row_sum(f, r, a) <= row_sum(f, r, b),
    decreases b,
{
    if b <= 0 {
    } else if a == b {
        lemma_row_sum_monotone(f, r, a - 1, b - 1);
    } else {
        lemma_row_sum_monotone(f, r, a, b - 1);
    }
}

/// A sum of non-negative terms over the first rows of a matrix is non-negative
/// and at most the sum over more rows.
pub proof fn lemma_matrix_sum_monotone(m: Seq<Seq<char>>, f: spec_fn(int, int) -> int, a: int, b: int)
    requires
        forall|r: int, c: int| 0 <= r < b && 0 <= c < m[r].len() ==> #[trigger] f(r, c) >= 0,
        a <= b <= m.len(),
    ensures
        0 <= matrix_sum(m, f, a) <= matrix_sum(m, f, b),
    decreases b,
{
    if b <= 0 {
    } else {
        lemma_row_sum_monotone(f, b - 1, 0, m[b - 1].len() as int);
        if a == b {
            lemma_matrix_sum_monotone(m, f, a - 1, b - 1);
        } else {
            lemma_matrix_sum_monotone(m, f, a, b - 1);
        }
    }
}

/// The number of cells in the first `end_r` rows of `m`.
pub open spec fn cells_in_rows(m: Seq<Seq<char>>, end_r: int) -> int
    decreases end_r,
{
    if end_r <= 0 {
        0
    } else {
        cells_in_rows(m, end_r - 1) + m[end_r - 1].len()
    }
}

/// A sum of terms between zero and `most` over part of a row is at most
/// `most` for each of its cells.
pub proof fn lemma_row_sum_bound(f: spec_fn(int, int) -> int, r: int, n: int, most: int)
    requires
        0 <= n,
        forall|c: int| 0 <= c < n ==> 0 <= #[trigger] f(r, c) <= most,
    ensures
        0 <= row_sum(f, r, n) <= most * n,
    decreases n,
{
    if n > 0 {
        lemma_row_sum_bound(f, r, n - 1, most);
        assert(most * n == most * (n - 1) + most) by (nonlinear_arith);
    } else {
        assert(most * 0 == 0) by (nonlinear_arith);
    }
}

/// A sum of terms between zero and `most` over the first rows of a matrix
/// is at most `most` for each of their cells.
pub proof fn lemma_matrix_sum_bound(m: Seq<Seq<char>>, f: spec_fn(int, int) -> int, n: int, most: int)
    requires
        0 <= n <= m.len(),
        forall|r: int, c: int| 0 <= r < n && 0 <= c < m[r].len() ==> 0 <= #[trigger] f(r, c) <= most,
    ensures
        0 <= matrix_sum(m, f, n) <= most * cells_in_rows(m, n),
    decreases n,
{
    if n > 0 {
        lemma_matrix_sum_bound(m, f, n - 1, most);
        lemma_row_sum_bound(f, n - 1, m[n - 1].len() as int, most);
        assert(most * cells_in_rows(m, n) == most * cells_in_rows(m, n - 1) + most * m[n - 1].len())
            by (nonlinear_arith)
            requires
                cells_in_rows(m, n) == cells_in_rows(m, n - 1) + m[n - 1].len(),
        ;
    } else {
        assert(most * 0 == 0) by (nonlinear_arith);
    }
}

/// An immutable rectangular buffer of characters.
pub struct Grid {
    cells: Vec<Vec<char>>,
    height: usize,
    width: usize,
}

impl View for Grid {
    type V = Seq<Seq<char>>;

    closed spec fn view(&self) -> Seq<Seq<char>> {
        matrix_view(&self.cells)
    }
}

/// The character at `(r, c)` of a matrix whose rows may differ in length, where
/// that cell exists.
pub fn cell_at(cells: &Vec<Vec<char>>, r: i128, c: i128) -> (found: Option<char>)
    ensures
        in_bounds(matrix_view(cells), r as int, c as int) ==> found == Some(
            matrix_view(cells)[r as int][c as int],
        ),
        !in_bounds(matrix_view(cells), r as int, c as int) ==> found is None,
{
    if r >= 0 && c >= 0 && r < cells.len() as i128 && c < cells[r as usize].len() as i128 {
        Some(cells[r as usize][c as usize])
    } else {
        None
    }
}

/// The characters of `row` as a string.
pub fn string_of(row: &Vec<char>) -> (text: String)
    ensures
        text@ == row@,
{
    let mut text = String::new();
    let mut i: usize = 0;
    while i < row.len()
        invariant
            i <= row.len(),
            text@ == row@.take(i as int),
        decreases row.len() - i,
    {
        push_char(&mut text, row[i]);
        i += 1;
    }
    text
}

/// The grid that a sequence of text lines stands for: the lines themselves
/// as rows, where they all have the same length.
pub open spec fn parse_lines(lines: Seq<Seq<char>>) -> Option<Seq<Seq<char>>> {
    if is_rectangular(lines) {
        Some(lines)
    } else {
        None
    }
}

/// The text lines that stand for the cells of a grid: one line for each row.
pub open spec fn render_lines(cells: Seq<Seq<char>>) -> Seq<Seq<char>> {
    cells
}

/// The lines written for a grid are read back as the same grid: every cell
/// of it holds what it held.
pub proof fn lemma_round_trip(cells: Seq<Seq<char>>)
    requires
        is_rectangular(cells),
    ensures
        parse_lines(render_lines(cells)) == Some(cells),
        forall|r: int, c: int|
            in_bounds(cells, r, c) ==> in_bounds(parse_lines(render_lines(cells))->0, r, c) && parse_lines(
                render_lines(cells),
            )->0[r][c] == cells[r][c],
{
}

/// No cell of `cells` holds a line feed.
pub open spec fn no_line_feed(cells: Seq<Seq<char>>) -> bool {
    forall|r: int, c: int| in_bounds(cells, r, c) ==> #[trigger] cells[r][c] != '\n'
}

/// The text written for a grid is read back as the same grid, unless a cell
/// holds a line feed: every cell holds what it held.
pub proof fn lemma_text_round_trip(cells: Seq<Seq<char>>)
    requires
        is_rectangular(cells),
        no_line_feed(cells),
    ensures
        parse_lines(split_lines(join_lines(cells))) == Some(cells),
{
    assert forall|i: int, j: int| 0 <= i < cells.len() && 0 <= j < cells[i].len() implies #[trigger] cells[i][j]
        != '\n' by {
        assert(in_bounds(cells, i, j));
    }
    crate::text::lemma_split_join(cells);
}

/// Copies the characters of `line` into a vector.
pub fn chars_of(line: &str) -> (out: Vec<char>)
    ensures
        out@ == line@,
{
    let mut out: Vec<char> = Vec::new();
    for ch in it: line.chars()
        invariant
            out@ == it.seq().take(it.index() as int),
            it.seq() == line@,
    {
        out.push(ch);
    }
    out
}

impl Grid {
    /// The grid's fields agree with each other: `height` rows of `width` cells.
    pub closed spec fn wf(&self) -> bool {
        &&& self.cells.len() == self.height
        &&& forall|i: int| 0 <= i < self.cells.len() ==> (#[trigger] self.cells[i]).len() == self.width
        &&& self.height == 0 ==> self.width == 0
    }

    /// Number of rows.
    pub closed spec fn spec_height(&self) -> nat {
        self.height as nat
    }

    /// Number of columns.
    pub closed spec fn spec_width(&self) -> nat {
        self.width as nat
    }

    /// What well-formedness means for the view.
    pub proof fn lemma_wf_view(&self)
        requires
            self.wf(),
        ensures
            self@.len() == self.spec_height(),
            is_rectangular(self@),
            width_of(self@) == self.spec_width(),
            forall|i: int| 0 <= i < self@.len() ==> (#[trigger] self@[i]).len() == self.spec_width(),
            is_addressable(self@),
    {
        lemma_matrix_view_addressable(&self.cells);
    }

    /// Builds a grid from a character matrix. Fails with `MalformedGrid` exactly
    /// when some row differs in length from the first.
    pub fn from_cells(cells: Vec<Vec<char>>) -> (r: Result<Grid, GridError>)
        ensures
            is_rectangular(matrix_view(&cells)) ==> r is Ok,
            r matches Ok(g) ==> g.wf() && g@ == matrix_view(&cells),
            r matches Err(e) ==> e == GridError::MalformedGrid && !is_rectangular(matrix_view(&cells)),
    {
        let height = cells.len();
        let width = if height > 0 { cells[0].len() } else { 0 };
        let mut i: usize = 0;
        while i < height
            invariant
                height == cells.len(),
                height > 0 ==> width == cells[0].len(),
                i <= height,
                forall|k: int| 0 <= k < i ==> (#[trigger] cells[k]).len() == width,
            decreases height - i,
        {
            if cells[i].len() != width {
                proof {
                    assert(matrix_view(&cells)[i as int].len() != matrix_view(&cells)[0].len());
                }
                return Err(GridError::MalformedGrid);
            }
            i += 1;
        }
        proof {
            assert forall|k: int| 0 <= k < matrix_view(&cells).len() implies (#[trigger] matrix_view(
                &cells,
            )[k]).len() == matrix_view(&cells)[0].len() by {}
        }
        Ok(Grid { cells, height, width })
    }

    /// Builds a grid from text lines, one line per row and one character per
    /// cell. Fails with `MalformedGrid` exactly when the lines differ in length.
    pub fn new(rows: Vec<String>) -> (r: Result<Grid, GridError>)
        ensures
            parse_lines(lines_view(&rows)) is Some ==> r is Ok,
            r matches Ok(g) ==> g.wf() && Some(g@) == parse_lines(lines_view(&rows)),
            r matches Err(e) ==> e == GridError::MalformedGrid && parse_lines(lines_view(&rows)) is None,
    {
        let mut cells: Vec<Vec<char>> = Vec::new();
        let mut i: usize = 0;
        while i < rows.len()
            invariant
                i <= rows.len(),
                cells.len() == i,
                forall|k: int| 0 <= k < i ==> (#[trigger] cells[k])@ == rows[k]@,
            decreases rows.len() - i,
        {
            let row = chars_of(rows[i].as_str());
            cells.push(row);
            i += 1;
        }
        assert(matrix_view(&cells) =~= lines_view(&rows));
        Grid::from_cells(cells)
    }

    /// The grid as text lines, one line for each row.
    pub fn to_lines(&self) -> (lines: Vec<String>)
        requires
            self.wf(),
        ensures
            lines_view(&lines) == render_lines(self@),
            parse_lines(lines_view(&lines)) == Some(self@),
    {
        let mut lines: Vec<String> = Vec::new();
        let mut r: usize = 0;
        while r < self.height
            invariant
                self.wf(),
                r <= self.height,
                lines.len() == r,
                forall|i: int| 0 <= i < r ==> (#[trigger] lines[i])@ == self.cells[i]@,
            decreases self.height - r,
        {
            let line = string_of(&self.cells[r]);
            lines.push(line);
            r += 1;
        }
        assert(lines_view(&lines) =~= self@);
        proof {
            self.lemma_wf_view();
        }
        lines
    }

    /// The grid as one text: each row as a line that ends with a line feed.
    pub fn to_text(&self) -> (text: String)
        requires
            self.wf(),
        ensures
            text@ == join_lines(self@),
    {
        join_rows(&self.cells)
    }

    /// Reads a grid from a text in which each line is a row. Lines end at a
    /// line feed; what follows the last line feed is a line too unless it is
    /// empty. Fails with `MalformedGrid` exactly when the lines differ in length.
    pub fn parse(text: &str) -> (r: Result<Grid, GridError>)
        ensures
            parse_lines(split_lines(text@)) is Some ==> r is Ok,
            r matches Ok(g) ==> g.wf() && Some(g@) == parse_lines(split_lines(text@)),
            r matches Err(e) ==> e == GridError::MalformedGrid && parse_lines(split_lines(text@)) is None,
    {
        Grid::from_cells(split_text(text))
    }

    /// The rows of the grid.
    pub fn cells(&self) -> (cells: &Vec<Vec<char>>)
        requires
            self.wf(),
        ensures
            matrix_view(cells) == self@,
    {
        &self.cells
    }

    /// Number of rows.
    pub fn height(&self) -> (h: usize)
        requires
            self.wf(),
        ensures
            h == self@.len(),
            h == self.spec_height(),
    {
        self.height
    }

    /// Number of columns.
    pub fn width(&self) -> (w: usize)
        requires
            self.wf(),
        ensures
            w == width_of(self@),
            w == self.spec_width(),
    {
        self.width
    }

    /// Whether `(row, col)` names a cell of the grid.
    pub fn is_in_bounds(&self, row: isize, col: isize) -> (b: bool)
        requires
            self.wf(),
        ensures
            b == in_bounds(self@, row as int, col as int),
    {
        row >= 0 && col >= 0 && (row as usize) < self.height && (col as usize) < self.width
    }

    /// The character at `(row, col)`, or `OutOfBounds` where there is no such cell.
    pub fn get(&self, row: usize, col: usize) -> (r: Result<char, GridError>)
        requires
            self.wf(),
        ensures
            in_bounds(self@, row as int, col as int) ==> r == Ok::<char, GridError>(
                self@[row as int][col as int],
            ),
            !in_bounds(self@, row as int, col as int) ==> r == Err::<char, GridError>(
                GridError::OutOfBounds,
            ),
    {
        if row < self.height && col < self.width {
            Ok(self.cells[row][col])
        } else {
            Err(GridError::OutOfBounds)
        }
    }

    /// The character in a cell of the grid.
    pub fn at(&self, row: usize, col: usize) -> (ch: char)
        requires
            self.wf(),
            in_bounds(self@, row as int, col as int),
        ensures
            ch == self@[row as int][col as int],
    {
        self.cells[row][col]
    }

    /// The cells for whose character `predicate` gave `true`, in row-major order.
    pub fn find_all<F: Fn(char) -> bool>(&self, predicate: F) -> (found: Vec<Coord>)
        requires
            self.wf(),
            forall|ch: char| call_requires(predicate, (ch,)),
        ensures
            forall|i: int|
                0 <= i < found@.len() ==> in_bounds(self@, (#[trigger] found@[i]).row as int, found@[i].col as int)
                    && call_ensures(predicate, (self@[found@[i].row as int][found@[i].col as int],), true),
            forall|p: Coord|
                in_bounds(self@, p.row as int, p.col as int) && !found@.contains(p) ==> call_ensures(
                    predicate,
                    (#[trigger] self@[p.row as int][p.col as int],),
                    false,
                ),
            forall|i: int, j: int|
                0 <= i < j < found@.len() ==> row_major_lt(#[trigger] found@[i], #[trigger] found@[j]),
    {
        let mut found: Vec<Coord> = Vec::new();
        let mut row: usize = 0;
        while row < self.height
            invariant
                self.wf(),
                row <= self.height,
                forall|ch: char| call_requires(predicate, (ch,)),
                forall|i: int|
                    0 <= i < found@.len() ==> in_bounds(
                        self@,
                        (#[trigger] found@[i]).row as int,
                        found@[i].col as int,
                    ) && scanned_before(found@[i].row as int, found@[i].col as int, row as int, 0)
                        && call_ensures(
                        predicate,
                        (self@[found@[i].row as int][found@[i].col as int],),
                        true,
                    ),
                forall|p: Coord|
                    in_bounds(self@, p.row as int, p.col as int) && scanned_before(
                        p.row as int,
                        p.col as int,
                        row as int,
                        0,
                    ) && !found@.contains(p) ==> call_ensures(
                        predicate,
                        (#[trigger] self@[p.row as int][p.col as int],),
                        false,
                    ),
                forall|i: int, j: int|
                    0 <= i < j < found@.len() ==> row_major_lt(#[trigger] found@[i], #[trigger] found@[j]),
            decreases self.height - row,
        {
            let mut col: usize = 0;
            while col < self.width
                invariant
                    self.wf(),
                    row < self.height,
                    col <= self.width,
                    forall|ch: char| call_requires(predicate, (ch,)),
                    forall|i: int|
                        0 <= i < found@.len() ==> in_bounds(
                            self@,
                            (#[trigger] found@[i]).row as int,
                            found@[i].col as int,
                        ) && scanned_before(
                            found@[i].row as int,
                            found@[i].col as int,
                            row as int,
                            col as int,
                        ) && call_ensures(
                            predicate,
                            (self@[found@[i].row as int][found@[i].col as int],),
                            true,
                        ),
                    forall|p: Coord|
                        in_bounds(self@, p.row as int, p.col as int) && scanned_before(
                            p.row as int,
                            p.col as int,
                            row as int,
                            col as int,
                        ) && !found@.contains(p) ==> call_ensures(
                            predicate,
                            (#[trigger] self@[p.row as int][p.col as int],),
                            false,
                        ),
                    forall|i: int, j: int|
                        0 <= i < j < found@.len() ==> row_major_lt(
                            #[trigger] found@[i],
                            #[trigger] found@[j],
                        ),
                decreases self.width - col,
            {
                let ghost before = found@;
                let here = Coord { row, col };
                let hit = predicate(self.cells[row][col]);
                if hit {
                    found.push(here);
                }
                proof {
                    assert forall|p: Coord|
                        in_bounds(self@, p.row as int, p.col as int) && scanned_before(
                            p.row as int,
                            p.col as int,
                            row as int,
                            col as int + 1,
                        ) && !found@.contains(p) implies call_ensures(
                        predicate,
                        (#[trigger] self@[p.row as int][p.col as int],),
                        false,
                    ) by {
                        if p == here {
                            if hit {
                                assert(found@[before.len() as int] == here);
                            }
                        } else {
                            if before.contains(p) {
                                let k = choose|k: int| 0 <= k < before.len() && before[k] == p;
                                assert(found@[k] == p);
                            }
                        }
                    }
                }
                col += 1;
            }
            row += 1;
        }
        found
    }

    /// All positions that hold `digit`, in row-major order.
    pub fn find_digit(&self, digit: char) -> (found: Vec<Coord>)
        requires
            self.wf(),
        ensures
            found@ == positions_of(self@, digit, self@.len() as int, 0),
    {
        let mut result: Vec<Coord> = Vec::new();
        let mut row: usize = 0;
        while row < self.height
            invariant
                self.wf(),
                row <= self.height,
                result@ == positions_of(self@, digit, row as int, 0),
            decreases self.height - row,
        {
            let mut col: usize = 0;
            while col < self.width
                invariant
                    self.wf(),
                    row < self.height,
                    col <= self.width,
                    result@ == positions_of(self@, digit, row as int, col as int),
                decreases self.width - col,
            {
                if self.cells[row][col] == digit {
                    result.push(Coord { row, col });
                }
                col += 1;
            }
            row += 1;
        }
        result
    }

    /// Puts `value` into the cell at `(row, col)`. Where there is no such cell
    /// the grid stays as it is and the result is `OutOfBounds`.
    pub fn set(&mut self, row: usize, col: usize, value: char) -> (r: Result<(), GridError>)
        requires
            old(self).wf(),
        ensures
            final(self).wf(),
            in_bounds(old(self)@, row as int, col as int) ==> r is Ok && final(self)@ == old(self)@.update(
                row as int,
                old(self)@[row as int].update(col as int, value),
            ),
            !in_bounds(old(self)@, row as int, col as int) ==> r == Err::<(), GridError>(
                GridError::OutOfBounds,
            ) && final(self)@ == old(self)@,
    {
        if row < self.height && col < self.width {
            self.cells[row][col] = value;
            assert(self@ =~= old(self)@.update(
                row as int,
                old(self)@[row as int].update(col as int, value),
            ));
            Ok(())
        } else {
            Err(GridError::OutOfBounds)
        }
    }

    /// A copy of the grid.
    pub fn duplicate(&self) -> (copy: Grid)
        requires
            self.wf(),
        ensures
            copy.wf(),
            copy@ == self@,
    {
        let mut cells: Vec<Vec<char>> = Vec::new();
        let mut r: usize = 0;
        while r < self.height
            invariant
                self.wf(),
                r <= self.height,
                cells.len() == r,
                forall|i: int| 0 <= i < r ==> (#[trigger] cells[i])@ == self.cells[i]@,
            decreases self.height - r,
        {
            let mut row: Vec<char> = Vec::new();
            let mut c: usize = 0;
            while c < self.width
                invariant
                    self.wf(),
                    r < self.height,
                    c <= self.width,
                    row@ == self.cells[r as int]@.take(c as int),
                decreases self.width - c,
            {
                row.push(self.cells[r][c]);
                c += 1;
            }
            cells.push(row);
            r += 1;
        }
        let copy = Grid { cells, height: self.height, width: self.width };
        assert(copy@ =~= self@);
        copy
    }

    /// The cell that lies `d_row` rows and `d_col` columns from `at`, where
    /// there is one.
    pub fn step(&self, at: Coord, d_row: isize, d_col: isize) -> (r: Option<Coord>)
        requires
            self.wf(),
        ensures
            in_bounds(self@, at.row + d_row, at.col + d_col) ==> r == Some(
                Coord { row: (at.row + d_row) as usize, col: (at.col + d_col) as usize },
            ),
            !in_bounds(self@, at.row + d_row, at.col + d_col) ==> r is None,
    {
        let row: i128 = at.row as i128 + d_row as i128;
        let col: i128 = at.col as i128 + d_col as i128;
        if row >= 0 && col >= 0 && row < self.height as i128 && col < self.width as i128 {
            Some(Coord { row: row as usize, col: col as usize })
        } else {
            None
        }
    }
}

/// `a` comes before `b` in row-major order.
pub open spec fn row_major_lt(a: Coord, b: Coord) -> bool {
    scanned_before(a.row as int, a.col as int, b.row as int, b.col as int)
}

/// What `positions_of` holds over a rectangular matrix, up to a scan position
/// in it: cells of `m` that hold `ch`, each of them that comes before the scan
/// position, in strictly ascending row-major order.
pub proof fn lemma_positions_of(m: Seq<Seq<char>>, ch: char, end_r: int, end_c: int)
    requires
        is_rectangular(m),
        0 <= end_r <= m.len(),
        0 <= end_c <= width_of(m),
        end_r == m.len() ==> end_c == 0,
        m.len() <= usize::MAX,
        width_of(m) <= usize::MAX,
    ensures
        forall|i: int|
            0 <= i < positions_of(m, ch, end_r, end_c).len() ==> {
                let p = #[trigger] positions_of(m, ch, end_r, end_c)[i];
                &&& cell_is(m, p.row as int, p.col as int, ch)
                &&& scanned_before(p.row as int, p.col as int, end_r, end_c)
            },
        forall|p: Coord|
            cell_is(m, p.row as int, p.col as int, ch) && scanned_before(
                p.row as int,
                p.col as int,
                end_r,
                end_c,
            ) ==> #[trigger] positions_of(m, ch, end_r, end_c).contains(p),
        forall|i: int, j: int|
            0 <= i < j < positions_of(m, ch, end_r, end_c).len() ==> row_major_lt(
                #[trigger] positions_of(m, ch, end_r, end_c)[i],
                #[trigger] positions_of(m, ch, end_r, end_c)[j],
            ),
        positions_of(m, ch, end_r, end_c).no_duplicates(),
    decreases end_r, end_c,
{
    let s = positions_of(m, ch, end_r, end_c);
    if end_r == 0 && end_c == 0 {
    } else if end_c == 0 {
        lemma_positions_of(m, ch, end_r - 1, width_of(m) as int);
        let prev = positions_of(m, ch, end_r - 1, width_of(m) as int);
        assert(s == prev);
        assert forall|p: Coord|
            cell_is(m, p.row as int, p.col as int, ch) && scanned_before(
                p.row as int,
                p.col as int,
                end_r,
                end_c,
            ) implies #[trigger] s.contains(p) by {
            assert(m[p.row as int].len() == width_of(m));
            assert(scanned_before(p.row as int, p.col as int, end_r - 1, width_of(m) as int));
            assert(prev.contains(p));
        }
    } else {
        lemma_positions_of(m, ch, end_r, end_c - 1);
        let before = positions_of(m, ch, end_r, end_c - 1);
        if cell_is(m, end_r, end_c - 1, ch) {
            let here = Coord { row: end_r as usize, col: (end_c - 1) as usize };
            assert(s == before.push(here));
            assert forall|i: int, j: int| 0 <= i < j < s.len() implies row_major_lt(
                #[trigger] s[i],
                #[trigger] s[j],
            ) by {
                if j == s.len() - 1 {
                    assert(s[i] == before[i]);
                    assert(scanned_before(s[i].row as int, s[i].col as int, end_r, end_c - 1));
                } else {
                    assert(s[i] == before[i] && s[j] == before[j]);
                }
            }
            assert forall|p: Coord|
                cell_is(m, p.row as int, p.col as int, ch) && scanned_before(
                    p.row as int,
                    p.col as int,
                    end_r,
                    end_c,
                ) implies #[trigger] s.contains(p) by {
                if p.row == end_r && p.col == end_c - 1 {
                    assert(s[s.len() - 1] == p);
                } else {
                    assert(scanned_before(p.row as int, p.col as int, end_r, end_c - 1));
                    assert(before.contains(p));
                    let i = choose|i: int| 0 <= i < before.len() && before[i] == p;
                    assert(s[i] == p);
                }
            }
        } else {
            assert(s == before);
            assert forall|p: Coord|
                cell_is(m, p.row as int, p.col as int, ch) && scanned_before(
                    p.row as int,
                    p.col as int,
                    end_r,
                    end_c,
                ) implies #[trigger] s.contains(p) by {
                assert(scanned_before(p.row as int, p.col as int, end_r, end_c - 1));
                assert(before.contains(p));
            }
        }
    }
    assert forall|i: int, j: int| 0 <= i < s.len() && 0 <= j < s.len() && i != j implies s[i] != s[j] by {
        if i < j {
            assert(row_major_lt(s[i], s[j]));
        } else {
            assert(row_major_lt(s[j], s[i]));
        }
    }
}

} // verus!
