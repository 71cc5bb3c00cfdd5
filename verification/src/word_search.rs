//! Word search: the word `XMAS` along the eight directions, and crossed `MAS`
//! patterns around a centre `A`.

use crate::direction::{surrounding_offset, surrounding_offsets};
use crate::grid::{cells_in_rows, lemma_matrix_sum_bound, cell_is, indicator, is_rectangular, lemma_matrix_sum_monotone, lemma_row_sum_monotone, matrix_sum, matrix_view, row_sum, width_of};
use vstd::prelude::*;

verus! {

/// The word that is searched for.
pub open spec fn word() -> Seq<char> {
    seq!['X', 'M', 'A', 'S']
}

/// Letter `k` of the word.
fn word_char(k: usize) -> (ch: char)
    requires
        k < 4,
    ensures
        ch == word()[k as int],
{
    if k == 0 {
        'X'
    } else if k == 1 {
        'M'
    } else if k == 2 {
        'A'
    } else {
        'S'
    }
}

/// The letters of the word from position `pos` on stand in `m` along the
/// direction `(dx, dy)`, the letter at `pos` in the cell `(x, y)`.
pub open spec fn word_from(m: Seq<Seq<char>>, pos: int, x: int, y: int, dx: int, dy: int) -> bool {
    forall|k: int| pos <= k < 4 ==> cell_is(m, x + (k - pos) * dx, y + (k - pos) * dy, #[trigger] word()[k])
}

/// How many of the first `n` directions spell the whole word from `(x, y)`.
pub open spec fn words_at_upto(m: Seq<Seq<char>>, x: int, y: int, n: int) -> int
    decreases n,
{
    if n <= 0 {
        0
    } else {
        let d = surrounding_offsets()[n - 1];
        words_at_upto(m, x, y, n - 1) + indicator(word_from(m, 0, x, y, d.0, d.1))
    }
}

/// How many of the eight directions spell the whole word from `(x, y)`.
pub open spec fn words_at(m: Seq<Seq<char>>, x: int, y: int) -> int {
    words_at_upto(m, x, y, 8)
}

/// How often the word stands in `m`, over all start cells and directions.
pub open spec fn word_total(m: Seq<Seq<char>>) -> int {
    matrix_sum(m, |x: int, y: int| words_at(m, x, y), m.len() as int)
}

proof fn lemma_words_at_bounds(m: Seq<Seq<char>>, x: int, y: int, n: int)
    requires
        0 <= n <= 8,
    ensures
        0 <= words_at_upto(m, x, y, n) <= n,
    decreases n,
{
    if n > 0 {
        lemma_words_at_bounds(m, x, y, n - 1);
    }
}

/// The matcher behind `check_next_char`, on start coordinates wide enough for
/// every index and every signed offset.
fn spells_from(
    word_search: &Vec<Vec<char>>,
    char_position: usize,
    x: i128,
    y: i128,
    x_direction: isize,
    y_direction: isize,
) -> (found: bool)
    requires
        -0x1_0000_0000_0000_0000 <= x <= 0x1_0000_0000_0000_0000,
        -0x1_0000_0000_0000_0000 <= y <= 0x1_0000_0000_0000_0000,
    ensures
        found == word_from(
            matrix_view(word_search),
            char_position as int,
            x as int,
            y as int,
            x_direction as int,
            y_direction as int,
        ),
{
    let ghost m = matrix_view(word_search);
    let mut k: usize = char_position;
    let mut cx: i128 = x;
    let mut cy: i128 = y;
    while k < 4
        invariant
            char_position <= k,
            m == matrix_view(word_search),
            -0x1_0000_0000_0000_0000 <= x <= 0x1_0000_0000_0000_0000,
            -0x1_0000_0000_0000_0000 <= y <= 0x1_0000_0000_0000_0000,
            k < 4 ==> cx == x + (k - char_position) * x_direction,
            k < 4 ==> cy == y + (k - char_position) * y_direction,
            forall|j: int|
                char_position <= j < k ==> cell_is(
                    m,
                    x + (j - char_position) * x_direction,
                    y + (j - char_position) * y_direction,
                    #[trigger] word()[j],
                ),
        decreases 4 - k,
    {
        let ghost step = (k - char_position) as int;
        let ok = cx >= 0 && cy >= 0 && cx < word_search.len() as i128 && cy
            < word_search[cx as usize].len() as i128 && word_search[cx as usize][cy as usize]
            == word_char(k);
        if !ok {
            assert(!cell_is(m, x + step * x_direction, y + step * y_direction, word()[k as int]));
            return false;
        }
        assert(0 <= step <= 3);
        assert((step + 1) * x_direction == step * x_direction + x_direction) by (nonlinear_arith);
        assert((step + 1) * y_direction == step * y_direction + y_direction) by (nonlinear_arith);
        assert(-3 * 0x8000_0000_0000_0000 <= step * x_direction <= 3 * 0x8000_0000_0000_0000)
            by (nonlinear_arith)
            requires
                0 <= step <= 3,
                -0x8000_0000_0000_0000 <= x_direction < 0x8000_0000_0000_0000,
        ;
        assert(-3 * 0x8000_0000_0000_0000 <= step * y_direction <= 3 * 0x8000_0000_0000_0000)
            by (nonlinear_arith)
            requires
                0 <= step <= 3,
                -0x8000_0000_0000_0000 <= y_direction < 0x8000_0000_0000_0000,
        ;
        k += 1;
        if k < 4 {
            cx = cx + x_direction as i128;
            cy = cy + y_direction as i128;
        }
    }
    true
}

/// Whether the letters of the word from `char_position` on stand along
/// `(x_direction, y_direction)`, starting in the cell `(x, y)`. A position
/// outside the matrix matches nothing.
pub fn check_next_char(
    word_search: &Vec<Vec<char>>,
    char_position: usize,
    x: isize,
    y: isize,
    x_direction: isize,
    y_direction: isize,
) -> (found: bool)
    ensures
        found == word_from(
            matrix_view(word_search),
            char_position as int,
            x as int,
            y as int,
            x_direction as int,
            y_direction as int,
        ),
{
    spells_from(word_search, char_position, x as i128, y as i128, x_direction, y_direction)
}

/// Whether a word of four letters that starts in `(x, y)` and runs along
/// `(x_direction, y_direction)` ends inside a matrix of `rows` by `cols` cells.
pub fn can_fit_word(
    x: usize,
    y: usize,
    x_direction: isize,
    y_direction: isize,
    rows: usize,
    cols: usize,
) -> (fits: bool)
    ensures
        fits == (0 <= x + 3 * x_direction < rows && 0 <= y + 3 * y_direction < cols),
{
    let end_x: i128 = x as i128 + 3 * (x_direction as i128);
    let end_y: i128 = y as i128 + 3 * (y_direction as i128);
    end_x >= 0 && end_x < rows as i128 && end_y >= 0 && end_y < cols as i128
}

/// How many of the eight directions spell the word from `(x, y)`.
fn count_words_at(word_search: &Vec<Vec<char>>, x: usize, y: usize) -> (n: i32)
    ensures
        n == words_at(matrix_view(word_search), x as int, y as int),
        0 <= n <= 8,
{
    let ghost m = matrix_view(word_search);
    let mut n: i32 = 0;
    let mut i: usize = 0;
    while i < 8
        invariant
            i <= 8,
            m == matrix_view(word_search),
            n == words_at_upto(m, x as int, y as int, i as int),
            0 <= n <= i,
        decreases 8 - i,
    {
        let d = surrounding_offset(i);
        if spells_from(word_search, 0, x as i128, y as i128, d.0, d.1) {
            n += 1;
        }
        i += 1;
    }
    n
}

/// Counts the occurrences of the word over all start cells and directions.
pub fn check_all_directions(word_search: &Vec<Vec<char>>) -> (count: i32)
    requires
        word_total(matrix_view(word_search)) <= i32::MAX,
    ensures
        count == word_total(matrix_view(word_search)),
{
    let ghost m = matrix_view(word_search);
    let ghost f = |x: int, y: int| words_at(m, x, y);
    let mut count: i32 = 0;
    let mut x: usize = 0;
    proof {
        assert forall|r: int, c: int| 0 <= r < m.len() && 0 <= c < m[r].len() implies #[trigger] f(r, c)
            >= 0 by {
            lemma_words_at_bounds(m, r, c, 8);
        }
    }
    while x < word_search.len()
        invariant
            x <= word_search.len(),
            m == matrix_view(word_search),
            f == (|x: int, y: int| words_at(m, x, y)),
            forall|r: int, c: int| 0 <= r < m.len() && 0 <= c < m[r].len() ==> #[trigger] f(r, c) >= 0,
            matrix_sum(m, f, m.len() as int) <= i32::MAX,
            count == matrix_sum(m, f, x as int),
        decreases word_search.len() - x,
    {
        let mut y: usize = 0;
        let width = word_search[x].len();
        proof {
            lemma_matrix_sum_monotone(m, f, x as int + 1, m.len() as int);
            lemma_matrix_sum_monotone(m, f, x as int, x as int + 1);
        }
        while y < width
            invariant
                x < word_search.len(),
                width == word_search[x as int].len(),
                y <= width,
                m == matrix_view(word_search),
                f == (|x: int, y: int| words_at(m, x, y)),
                forall|r: int, c: int|
                    0 <= r < m.len() && 0 <= c < m[r].len() ==> #[trigger] f(r, c) >= 0,
                0 <= matrix_sum(m, f, x as int),
                matrix_sum(m, f, x as int) + row_sum(f, x as int, width as int) <= i32::MAX,
                count == matrix_sum(m, f, x as int) + row_sum(f, x as int, y as int),
            decreases width - y,
        {
            proof {
                lemma_row_sum_monotone(f, x as int, y as int + 1, width as int);
            }
            let here: i32 = count_words_at(word_search, x, y);
            count = count + here;
            y += 1;
        }
        x += 1;
    }
    count
}

/// Counts the occurrences of the word as `check_all_directions` does, looking
/// only at the directions in which the word can end inside the matrix.
pub fn check_all_directions_optimised(word_search: &Vec<Vec<char>>) -> (count: i32)
    requires
        is_rectangular(matrix_view(word_search)),
        word_total(matrix_view(word_search)) <= i32::MAX,
    ensures
        count == word_total(matrix_view(word_search)),
{
    let ghost m = matrix_view(word_search);
    let ghost f = |x: int, y: int| words_at(m, x, y);
    let rows = word_search.len();
    let cols = if rows > 0 {
        word_search[0].len()
    } else {
        0
    };
    let mut count: i32 = 0;
    let mut x: usize = 0;
    proof {
        assert forall|r: int, c: int| 0 <= r < m.len() && 0 <= c < m[r].len() implies #[trigger] f(r, c)
            >= 0 by {
            lemma_words_at_bounds(m, r, c, 8);
        }
    }
    while x < rows
        invariant
            x <= rows,
            rows == word_search.len(),
            cols == width_of(m),
            is_rectangular(m),
            m == matrix_view(word_search),
            f == (|x: int, y: int| words_at(m, x, y)),
            forall|r: int, c: int| 0 <= r < m.len() && 0 <= c < m[r].len() ==> #[trigger] f(r, c) >= 0,
            matrix_sum(m, f, m.len() as int) <= i32::MAX,
            count == matrix_sum(m, f, x as int),
        decreases rows - x,
    {
        let mut y: usize = 0;
        proof {
            assert(m[x as int].len() == cols);
            lemma_matrix_sum_monotone(m, f, x as int + 1, m.len() as int);
            lemma_matrix_sum_monotone(m, f, x as int, x as int + 1);
        }
        while y < cols
            invariant
                x < rows,
                rows == word_search.len(),
                cols == width_of(m),
                cols == m[x as int].len(),
                is_rectangular(m),
                y <= cols,
                m == matrix_view(word_search),
                f == (|x: int, y: int| words_at(m, x, y)),
                forall|r: int, c: int|
                    0 <= r < m.len() && 0 <= c < m[r].len() ==> #[trigger] f(r, c) >= 0,
                0 <= matrix_sum(m, f, x as int),
                matrix_sum(m, f, x as int) + row_sum(f, x as int, cols as int) <= i32::MAX,
                count == matrix_sum(m, f, x as int) + row_sum(f, x as int, y as int),
            decreases cols - y,
        {
            proof {
                lemma_row_sum_monotone(f, x as int, y as int + 1, cols as int);
            }
            let mut here: i32 = 0;
            let mut i: usize = 0;
            while i < 8
                invariant
                    i <= 8,
                    x < rows,
                    y < cols,
                    rows == word_search.len(),
                    cols == width_of(m),
                    is_rectangular(m),
                    m == matrix_view(word_search),
                    here == words_at_upto(m, x as int, y as int, i as int),
                    0 <= here <= i,
                decreases 8 - i,
            {
                let d = surrounding_offset(i);
                if can_fit_word(x, y, d.0, d.1, rows, cols) {
                    if spells_from(word_search, 0, x as i128, y as i128, d.0, d.1) {
                        here += 1;
                    }
                } else {
                    proof {
                        if word_from(m, 0, x as int, y as int, d.0 as int, d.1 as int) {
                            assert(cell_is(m, x + (3 - 0) * d.0, y + (3 - 0) * d.1, word()[3]));
                            assert(m[x + 3 * d.0].len() == cols);
                        }
                    }
                }
                i += 1;
            }
            count = count + here;
            y += 1;
        }
        x += 1;
    }
    count
}

/// The cell `(r, c)` exists and holds `ch`.
fn has_char(word_search: &Vec<Vec<char>>, r: i128, c: i128, ch: char) -> (b: bool)
    ensures
        b == cell_is(matrix_view(word_search), r as int, c as int, ch),
{
    r >= 0 && c >= 0 && r < word_search.len() as i128 && c < word_search[r as usize].len() as i128
        && word_search[r as usize][c as usize] == ch
}

/// A second `M` two columns to the right, both `S` two rows up, `A` between.
pub open spec fn x_up(m: Seq<Seq<char>>, x: int, y: int) -> bool {
    &&& cell_is(m, x, y + 2, 'M')
    &&& cell_is(m, x - 2, y, 'S')
    &&& cell_is(m, x - 2, y + 2, 'S')
    &&& cell_is(m, x - 1, y + 1, 'A')
}

/// A second `M` two columns to the right, both `S` two rows down, `A` between.
pub open spec fn x_down(m: Seq<Seq<char>>, x: int, y: int) -> bool {
    &&& cell_is(m, x, y + 2, 'M')
    &&& cell_is(m, x + 2, y, 'S')
    &&& cell_is(m, x + 2, y + 2, 'S')
    &&& cell_is(m, x + 1, y + 1, 'A')
}

/// A second `M` two rows down, both `S` two columns to the right, `A` between.
pub open spec fn y_right(m: Seq<Seq<char>>, x: int, y: int) -> bool {
    &&& cell_is(m, x + 2, y, 'M')
    &&& cell_is(m, x, y + 2, 'S')
    &&& cell_is(m, x + 2, y + 2, 'S')
    &&& cell_is(m, x + 1, y + 1, 'A')
}

/// A second `M` two rows down, both `S` two columns to the left, `A` between.
pub open spec fn y_left(m: Seq<Seq<char>>, x: int, y: int) -> bool {
    &&& cell_is(m, x + 2, y, 'M')
    &&& cell_is(m, x, y - 2, 'S')
    &&& cell_is(m, x + 2, y - 2, 'S')
    &&& cell_is(m, x + 1, y - 1, 'A')
}

/// How many of the four crossed patterns have their first `M` at `(x, y)`.
/// The cell `(x, y)` itself is not looked at.
pub open spec fn cross_count(m: Seq<Seq<char>>, x: int, y: int) -> int {
    indicator(x_up(m, x, y)) + indicator(x_down(m, x, y)) + indicator(y_right(m, x, y)) + indicator(
        y_left(m, x, y),
    )
}

/// The crossed patterns that start at `(x, y)`, counted only where that cell
/// holds an `M`.
pub open spec fn cross_count_at_m(m: Seq<Seq<char>>, x: int, y: int) -> int {
    if cell_is(m, x, y, 'M') {
        cross_count(m, x, y)
    } else {
        0
    }
}

/// All crossed patterns of `m`.
pub open spec fn cross_total(m: Seq<Seq<char>>) -> int {
    matrix_sum(m, |x: int, y: int| cross_count_at_m(m, x, y), m.len() as int)
}

/// Whether the pattern that opens to the left starts at `(x, y)`.
pub fn check_y_left(word_search: &Vec<Vec<char>>, x: usize, y: usize) -> (found: bool)
    ensures
        found == y_left(matrix_view(word_search), x as int, y as int),
{
    let x = x as i128;
    let y = y as i128;
    has_char(word_search, x + 2, y, 'M') && has_char(word_search, x, y - 2, 'S') && has_char(
        word_search,
        x + 2,
        y - 2,
        'S',
    ) && has_char(word_search, x + 1, y - 1, 'A')
}

/// Whether the pattern that opens to the right starts at `(x, y)`.
pub fn check_y_right(word_search: &Vec<Vec<char>>, x: usize, y: usize) -> (found: bool)
    ensures
        found == y_right(matrix_view(word_search), x as int, y as int),
{
    let x = x as i128;
    let y = y as i128;
    has_char(word_search, x + 2, y, 'M') && has_char(word_search, x, y + 2, 'S') && has_char(
        word_search,
        x + 2,
        y + 2,
        'S',
    ) && has_char(word_search, x + 1, y + 1, 'A')
}

/// Whether the pattern that opens upwards starts at `(x, y)`.
pub fn check_x_up(word_search: &Vec<Vec<char>>, x: usize, y: usize) -> (found: bool)
    ensures
        found == x_up(matrix_view(word_search), x as int, y as int),
{
    let x = x as i128;
    let y = y as i128;
    has_char(word_search, x, y + 2, 'M') && has_char(word_search, x - 2, y, 'S') && has_char(
        word_search,
        x - 2,
        y + 2,
        'S',
    ) && has_char(word_search, x - 1, y + 1, 'A')
}

/// Whether the pattern that opens downwards starts at `(x, y)`.
pub fn check_x_down(word_search: &Vec<Vec<char>>, x: usize, y: usize) -> (found: bool)
    ensures
        found == x_down(matrix_view(word_search), x as int, y as int),
{
    let x = x as i128;
    let y = y as i128;
    has_char(word_search, x, y + 2, 'M') && has_char(word_search, x + 2, y, 'S') && has_char(
        word_search,
        x + 2,
        y + 2,
        'S',
    ) && has_char(word_search, x + 1, y + 1, 'A')
}

/// How many of the four crossed patterns start at `(x, y)`.
pub fn check_cross_mas(word_search: &Vec<Vec<char>>, x: usize, y: usize) -> (count: i32)
    ensures
        count == cross_count(matrix_view(word_search), x as int, y as int),
        0 <= count <= 4,
{
    let mut count: i32 = 0;
    if check_x_up(word_search, x, y) {
        count += 1;
    }
    if check_x_down(word_search, x, y) {
        count += 1;
    }
    if check_y_right(word_search, x, y) {
        count += 1;
    }
    if check_y_left(word_search, x, y) {
        count += 1;
    }
    count
}

/// Counts the crossed patterns over all cells that hold an `M`.
pub fn get_cross_mas(word_search: &Vec<Vec<char>>) -> (count: i32)
    requires
        cross_total(matrix_view(word_search)) <= i32::MAX,
    ensures
        count == cross_total(matrix_view(word_search)),
{
    let ghost m = matrix_view(word_search);
    let ghost f = |x: int, y: int| cross_count_at_m(m, x, y);
    let mut count: i32 = 0;
    let mut x: usize = 0;
    while x < word_search.len()
        invariant
            x <= word_search.len(),
            m == matrix_view(word_search),
            f == (|x: int, y: int| cross_count_at_m(m, x, y)),
            forall|r: int, c: int| 0 <= r < m.len() && 0 <= c < m[r].len() ==> #[trigger] f(r, c) >= 0,
            matrix_sum(m, f, m.len() as int) <= i32::MAX,
            count == matrix_sum(m, f, x as int),
        decreases word_search.len() - x,
    {
        let mut y: usize = 0;
        let width = word_search[x].len();
        proof {
            lemma_matrix_sum_monotone(m, f, x as int + 1, m.len() as int);
            lemma_matrix_sum_monotone(m, f, x as int, x as int + 1);
        }
        while y < width
            invariant
                x < word_search.len(),
                width == word_search[x as int].len(),
                y <= width,
                m == matrix_view(word_search),
                f == (|x: int, y: int| cross_count_at_m(m, x, y)),
                forall|r: int, c: int|
                    0 <= r < m.len() && 0 <= c < m[r].len() ==> #[trigger] f(r, c) >= 0,
                0 <= matrix_sum(m, f, x as int),
                matrix_sum(m, f, x as int) + row_sum(f, x as int, width as int) <= i32::MAX,
                count == matrix_sum(m, f, x as int) + row_sum(f, x as int, y as int),
            decreases width - y,
        {
            proof {
                lemma_row_sum_monotone(f, x as int, y as int + 1, width as int);
            }
            if word_search[x][y] == 'M' {
                let mas_count: i32 = check_cross_mas(word_search, x, y);
                count = count + mas_count;
            }
            y += 1;
        }
        x += 1;
    }
    count
}

/// The word stands at most eight times for each cell of the matrix, and the
/// crossed patterns are at most four for each cell.
pub proof fn lemma_totals_bound(m: Seq<Seq<char>>)
    ensures
        0 <= word_total(m) <= 8 * cells_in_rows(m, m.len() as int),
        0 <= cross_total(m) <= 4 * cells_in_rows(m, m.len() as int),
{
    let words = |x: int, y: int| words_at(m, x, y);
    assert forall|r: int, c: int| 0 <= r < m.len() && 0 <= c < m[r].len() implies 0 <= #[trigger] words(r, c)
        <= 8 by {
        lemma_words_at_bounds(m, r, c, 8);
    }
    lemma_matrix_sum_bound(m, words, m.len() as int, 8);
    let crosses = |x: int, y: int| cross_count_at_m(m, x, y);
    assert forall|r: int, c: int| 0 <= r < m.len() && 0 <= c < m[r].len() implies 0 <= #[trigger] crosses(
        r,
        c,
    ) <= 4 by {}
    lemma_matrix_sum_bound(m, crosses, m.len() as int, 4);
}

} // verus!
