//! Trails: walks over orthogonally adjacent cells whose digits rise by one
//! at each step, from a `0` to a `9`.

use crate::direction::orthogonal_offset;
use crate::grid::{
    cell_at, cell_is, in_bounds, is_addressable, lemma_matrix_view_addressable,
    lemma_positions_of, matrix_view, positions_of, Coord, Grid, GridError,
};
use crate::trail_proofs::{
    ends_from_starts, lemma_climbs_after, lemma_trails_by_start, lemma_unique_at_most_total,
    lemma_ways_from_starts_monotone, summits_after, trail_ends, trails, ways_after, ways_from_starts,
};
use vstd::prelude::*;

verus! {

/// The two ends of a trail.
#[derive(Clone, Copy, Debug, PartialEq, Eq, Hash, Structural)]
pub struct Path {
    pub start: Coord,
    pub end: Coord,
}

impl Path {
    /// The pair of `start` and `end`.
    pub fn new(start: Coord, end: Coord) -> (p: Path)
        ensures
            p.start == start,
            p.end == end,
    {
        Path { start, end }
    }

    /// The pair as text: row and column of the start, then of the end, in
    /// decimal digits with a colon between each two.
    pub open spec fn text(self) -> Seq<char> {
        crate::numbers::decimal_digits(self.start.row as nat) + seq![':'] + crate::numbers::decimal_digits(
            self.start.col as nat,
        ) + seq![':'] + crate::numbers::decimal_digits(self.end.row as nat) + seq![':']
            + crate::numbers::decimal_digits(self.end.col as nat)
    }

    /// The pair as text: row and column of the start, then of the end, with
    /// a colon between each two.
    pub fn to_string(&self) -> (text: String)
        ensures
            text@ == self.text(),
    {
        let mut text = String::new();
        crate::numbers::push_decimal(&mut text, self.start.row);
        crate::text::push_char(&mut text, ':');
        crate::numbers::push_decimal(&mut text, self.start.col);
        crate::text::push_char(&mut text, ':');
        crate::numbers::push_decimal(&mut text, self.end.row);
        crate::text::push_char(&mut text, ':');
        crate::numbers::push_decimal(&mut text, self.end.col);
        assert(text@ =~= self.text());
        text
    }
}

/// The character that stands for the digit `d`.
pub open spec fn digit_char(d: int) -> char {
    if d == 0 {
        '0'
    } else if d == 1 {
        '1'
    } else if d == 2 {
        '2'
    } else if d == 3 {
        '3'
    } else if d == 4 {
        '4'
    } else if d == 5 {
        '5'
    } else if d == 6 {
        '6'
    } else if d == 7 {
        '7'
    } else if d == 8 {
        '8'
    } else {
        '9'
    }
}

/// The value of a digit character.
pub open spec fn digit_value(ch: char) -> Option<int> {
    if ch == '0' {
        Some(0int)
    } else if ch == '1' {
        Some(1int)
    } else if ch == '2' {
        Some(2int)
    } else if ch == '3' {
        Some(3int)
    } else if ch == '4' {
        Some(4int)
    } else if ch == '5' {
        Some(5int)
    } else if ch == '6' {
        Some(6int)
    } else if ch == '7' {
        Some(7int)
    } else if ch == '8' {
        Some(8int)
    } else if ch == '9' {
        Some(9int)
    } else {
        None
    }
}

/// The character that stands for the digit `d`.
pub fn digit_to_char(d: u8) -> (ch: char)
    requires
        d <= 9,
    ensures
        ch == digit_char(d as int),
        digit_value(ch) == Some(d as int),
{
    if d == 0 {
        '0'
    } else if d == 1 {
        '1'
    } else if d == 2 {
        '2'
    } else if d == 3 {
        '3'
    } else if d == 4 {
        '4'
    } else if d == 5 {
        '5'
    } else if d == 6 {
        '6'
    } else if d == 7 {
        '7'
    } else if d == 8 {
        '8'
    } else {
        '9'
    }
}

/// The value of a digit character, `None` for any other character.
pub fn char_to_digit(ch: char) -> (d: Option<u8>)
    ensures
        digit_value(ch) matches Some(v) ==> d == Some(v as u8) && v <= 9 && digit_char(v) == ch,
        digit_value(ch) is None ==> d is None,
{
    if ch == '0' {
        Some(0)
    } else if ch == '1' {
        Some(1)
    } else if ch == '2' {
        Some(2)
    } else if ch == '3' {
        Some(3)
    } else if ch == '4' {
        Some(4)
    } else if ch == '5' {
        Some(5)
    } else if ch == '6' {
        Some(6)
    } else if ch == '7' {
        Some(7)
    } else if ch == '8' {
        Some(8)
    } else if ch == '9' {
        Some(9)
    } else {
        None
    }
}

/// `b` is one orthogonal step away from the position `(r, c)`.
pub open spec fn next_to(r: int, c: int, b: Coord) -> bool {
    (b.row == r && (b.col == c + 1 || b.col == c - 1)) || (b.col == c && (b.row == r + 1 || b.row == r
        - 1))
}

/// `a` and `b` are orthogonal neighbours.
pub open spec fn adjacent(a: Coord, b: Coord) -> bool {
    next_to(a.row as int, a.col as int, b)
}

/// How many rising walks to a `9` start in the cell `(r, c)`, taken to hold the
/// digit `d`: by the digits of the four neighbours.
pub open spec fn count_after(m: Seq<Seq<char>>, r: int, c: int, d: int) -> nat
    decreases 9 - d, 0int,
{
    if d >= 9 || d < 0 {
        1
    } else {
        count_from(m, r, c + 1, d + 1) + count_from(m, r + 1, c, d + 1) + count_from(m, r, c - 1, d + 1)
            + count_from(m, r - 1, c, d + 1)
    }
}

/// How many rising walks to a `9` start in the cell `(r, c)` with the digit `d`:
/// none where the cell does not hold `d`.
pub open spec fn count_from(m: Seq<Seq<char>>, r: int, c: int, d: int) -> nat
    decreases 9 - d, 1int,
{
    if d > 9 || d < 0 || !cell_is(m, r, c, digit_char(d)) {
        0
    } else {
        count_after(m, r, c, d)
    }
}

/// Whether a rising walk from `(r, c)`, taken to hold the digit `d`, ends in `e`.
pub open spec fn reaches_after(m: Seq<Seq<char>>, r: int, c: int, d: int, e: Coord) -> bool
    decreases 9 - d, 0int,
{
    if d >= 9 || d < 0 {
        e.row == r && e.col == c
    } else {
        reaches_from(m, r, c + 1, d + 1, e) || reaches_from(m, r + 1, c, d + 1, e) || reaches_from(
            m,
            r,
            c - 1,
            d + 1,
            e,
        ) || reaches_from(m, r - 1, c, d + 1, e)
    }
}

/// Whether a rising walk from the cell `(r, c)` with the digit `d` ends in `e`.
pub open spec fn reaches_from(m: Seq<Seq<char>>, r: int, c: int, d: int, e: Coord) -> bool
    decreases 9 - d, 1int,
{
    0 <= d <= 9 && cell_is(m, r, c, digit_char(d)) && reaches_after(m, r, c, d, e)
}

/// The ends, paired with `start`, of the rising walks from `(r, c)` at digit `d`.
pub open spec fn ends_after(m: Seq<Seq<char>>, start: Coord, r: int, c: int, d: int) -> Set<Path> {
    Set::new(|p: Path| p.start == start && reaches_after(m, r, c, d, p.end))
}

/// Adds `p` to a list without repetitions, unless it is there already.
fn insert_path(set: &mut Vec<Path>, p: Path)
    requires
        old(set)@.no_duplicates(),
    ensures
        final(set)@.no_duplicates(),
        final(set)@.to_set() == old(set)@.to_set().insert(p),
        old(set)@.contains(p) ==> final(set)@ == old(set)@,
        !old(set)@.contains(p) ==> final(set)@ == old(set)@.push(p),
{
    let mut i: usize = 0;
    while i < set.len()
        invariant
            i <= set.len(),
            *set == *old(set),
            set@.no_duplicates(),
            forall|j: int| 0 <= j < i ==> set@[j] != p,
        decreases set.len() - i,
    {
        if set[i] == p {
            assert(set@.to_set() =~= set@.to_set().insert(p));
            return ;
        }
        i += 1;
    }
    let ghost before = set@;
    set.push(p);
    assert(set@.to_set() =~= before.to_set().insert(p)) by {
        assert forall|q: Path| set@.to_set().contains(q) <==> before.to_set().insert(p).contains(
            q,
        ) by {
            if set@.contains(q) {
                let k = choose|k: int| 0 <= k < set@.len() && set@[k] == q;
                if k < before.len() {
                    assert(before[k] == q);
                }
            }
            if before.contains(q) {
                let k = choose|k: int| 0 <= k < before.len() && before[k] == q;
                assert(set@[k] == q);
            }
            if q == p {
                assert(set@[before.len() as int] == p);
            }
        }
    }
}

/// Walks on from `(r, c)`, taken to hold the digit `d`, to every neighbour that
/// holds the next digit; at the digit 9 it records the end and counts one more walk.
fn explore(
    columns: &Vec<Vec<char>>,
    start: Coord,
    r: usize,
    c: usize,
    d: u8,
    set: &mut Vec<Path>,
    total: &mut usize,
)
    requires
        d <= 9,
        old(set)@.no_duplicates(),
        *old(total) + count_after(matrix_view(columns), r as int, c as int, d as int) <= usize::MAX,
    ensures
        final(set)@.no_duplicates(),
        final(set)@.to_set() == old(set)@.to_set() + ends_after(
            matrix_view(columns),
            start,
            r as int,
            c as int,
            d as int,
        ),
        *final(total) == *old(total) + count_after(matrix_view(columns), r as int, c as int, d as int),
    decreases 9 - d,
{
    let ghost m = matrix_view(columns);
    if d >= 9 {
        let end = Coord { row: r, col: c };
        insert_path(set, Path { start, end });
        *total = *total + 1;
        assert(set@.to_set() =~= old(set)@.to_set() + ends_after(m, start, r as int, c as int, d as int));
        return ;
    }
    let next_digit = digit_to_char(d + 1);
    let mut i: usize = 0;
    while i < 4
        invariant
            i <= 4,
            d < 9,
            m == matrix_view(columns),
            next_digit == digit_char(d + 1),
            set@.no_duplicates(),
            *old(total) + count_after(m, r as int, c as int, d as int) <= usize::MAX,
            *total == *old(total) + (if i > 0 {
                count_from(m, r as int, c + 1, d + 1)
            } else {
                0
            }) + (if i > 1 {
                count_from(m, r + 1, c as int, d + 1)
            } else {
                0
            }) + (if i > 2 {
                count_from(m, r as int, c - 1, d + 1)
            } else {
                0
            }) + (if i > 3 {
                count_from(m, r - 1, c as int, d + 1)
            } else {
                0
            }),
            set@.to_set() == old(set)@.to_set() + Set::new(
                |p: Path|
                    p.start == start && ((i > 0 && reaches_from(m, r as int, c + 1, d + 1, p.end)) || (i
                        > 1 && reaches_from(m, r + 1, c as int, d + 1, p.end)) || (i > 2
                        && reaches_from(m, r as int, c - 1, d + 1, p.end)) || (i > 3 && reaches_from(
                        m,
                        r - 1,
                        c as int,
                        d + 1,
                        p.end,
                    ))),
            ),
        decreases 4 - i,
    {
        let ghost set_before = set@.to_set();
        let (dr, dc) = orthogonal_offset(i);
        let nr: i128 = r as i128 + dr as i128;
        let nc: i128 = c as i128 + dc as i128;
        let ghost here = Set::new(|p: Path| p.start == start && reaches_from(m, nr as int, nc as int, d + 1, p.end));
        let mut stepped = false;
        proof {
            assert(count_after(m, r as int, c as int, d as int) == count_from(m, r as int, c + 1, d + 1)
                + count_from(m, r + 1, c as int, d + 1) + count_from(m, r as int, c - 1, d + 1)
                + count_from(m, r - 1, c as int, d + 1));
        }
        let found = cell_at(columns, nr, nc);
        match found {
            Some(ch) => {
                if ch == next_digit {
                    proof {
                        assert(in_bounds(m, nr as int, nc as int));
                        assert(m[nr as int] == columns[nr as int]@);
                        assert(0 <= nr < columns.len() && 0 <= nc < columns[nr as int].len());
                        assert(cell_is(m, nr as int, nc as int, digit_char(d + 1)));
                        assert(count_from(m, nr as int, nc as int, d + 1) == count_after(
                            m,
                            nr as int,
                            nc as int,
                            d + 1,
                        ));
                    }
                    explore(columns, start, nr as usize, nc as usize, d + 1, set, total);
                    stepped = true;
                }
            },
            None => {},
        }
        proof {
            if stepped {
                assert(here =~= ends_after(m, start, nr as int, nc as int, d + 1));
            } else {
                assert(!cell_is(m, nr as int, nc as int, digit_char(d + 1)));
                assert(count_from(m, nr as int, nc as int, d + 1) == 0);
                assert(here =~= Set::<Path>::empty());
            }
            assert(set@.to_set() =~= set_before + here);
        }
        i += 1;
        assert(set@.to_set() =~= old(set)@.to_set() + Set::new(
            |p: Path|
                p.start == start && ((i > 0 && reaches_from(m, r as int, c + 1, d + 1, p.end)) || (i > 1
                    && reaches_from(m, r + 1, c as int, d + 1, p.end)) || (i > 2 && reaches_from(
                    m,
                    r as int,
                    c - 1,
                    d + 1,
                    p.end,
                )) || (i > 3 && reaches_from(m, r - 1, c as int, d + 1, p.end))),
        ));
    }
    assert(set@.to_set() =~= old(set)@.to_set() + ends_after(m, start, r as int, c as int, d as int));
}

/// The ends, paired with `start`, of the ways from `(r, c)` at digit `d`.
pub open spec fn paths_after(m: Seq<Seq<char>>, start: Coord, r: int, c: int, d: int) -> Set<Path> {
    Set::new(|p: Path| p.start == start && summits_after(m, r, c, d).contains(p.end))
}

/// Counting by neighbours, from a position taken to hold a digit, counts the
/// rising walks from there and finds the cells in which they end.
pub proof fn lemma_ways_after(m: Seq<Seq<char>>, start: Coord, r: int, c: int, d: int)
    requires
        0 <= d <= 9,
        is_addressable(m),
    ensures
        ways_after(m, r, c, d) == count_after(m, r, c, d),
        paths_after(m, start, r, c, d) == ends_after(m, start, r, c, d),
{
    if d < 9 {
        lemma_climbs_after(m, r, c, d);
    }
    assert(paths_after(m, start, r, c, d) =~= ends_after(m, start, r, c, d));
}

/// One step of the search for trails, on a character matrix: from the
/// position `coords`, taken to hold the digit that `current_number_in_sequence`
/// names, it walks on through every neighbour that holds the next digit. For
/// each way that ends at a `9` it adds one to `total_nines`, and it adds the
/// pair of `coords_of_zero` and that end to `coord_set` unless it is there.
pub fn find_next_number_from_current_coord(
    coords_of_zero: &(usize, usize),
    columns: &Vec<Vec<char>>,
    coords: &(usize, usize),
    current_number_in_sequence: &str,
    coord_set: &mut Vec<Path>,
    total_nines: &mut usize,
)
    requires
        current_number_in_sequence@.len() == 1,
        digit_value(current_number_in_sequence@[0]) is Some,
        old(coord_set)@.no_duplicates(),
        *old(total_nines) + ways_after(
            matrix_view(columns),
            coords.0 as int,
            coords.1 as int,
            digit_value(current_number_in_sequence@[0])->0,
        ) <= usize::MAX,
    ensures
        final(coord_set)@.no_duplicates(),
        final(coord_set)@.to_set() == old(coord_set)@.to_set() + paths_after(
            matrix_view(columns),
            Coord { row: coords_of_zero.0, col: coords_of_zero.1 },
            coords.0 as int,
            coords.1 as int,
            digit_value(current_number_in_sequence@[0])->0,
        ),
        *final(total_nines) == *old(total_nines) + ways_after(
            matrix_view(columns),
            coords.0 as int,
            coords.1 as int,
            digit_value(current_number_in_sequence@[0])->0,
        ),
{
    let start = Coord { row: coords_of_zero.0, col: coords_of_zero.1 };
    let digit = char_to_digit(current_number_in_sequence.get_char(0));
    proof {
        lemma_matrix_view_addressable(columns);
        lemma_ways_after(
            matrix_view(columns),
            start,
            coords.0 as int,
            coords.1 as int,
            digit_value(current_number_in_sequence@[0])->0,
        );
    }
    match digit {
        Some(d) => {
            explore(columns, start, coords.0, coords.1, d, coord_set, total_nines);
        },
        None => {},
    }
}

/// Every cell of `m` holds a decimal digit.
pub open spec fn all_digits(m: Seq<Seq<char>>) -> bool {
    forall|r: int, c: int| in_bounds(m, r, c) ==> digit_value(#[trigger] m[r][c]) is Some
}

/// Whether every cell of the matrix holds a decimal digit.
fn only_digits(cells: &Vec<Vec<char>>) -> (b: bool)
    ensures
        b == all_digits(matrix_view(cells)),
{
    let ghost m = matrix_view(cells);
    let mut r: usize = 0;
    while r < cells.len()
        invariant
            r <= cells.len(),
            m == matrix_view(cells),
            forall|i: int, j: int| 0 <= i < r && 0 <= j < m[i].len() ==> digit_value(#[trigger] m[i][j]) is Some,
        decreases cells.len() - r,
    {
        let mut c: usize = 0;
        while c < cells[r].len()
            invariant
                r < cells.len(),
                c <= cells[r as int].len(),
                m == matrix_view(cells),
                forall|i: int, j: int|
                    0 <= i < r && 0 <= j < m[i].len() ==> digit_value(#[trigger] m[i][j]) is Some,
                forall|j: int| 0 <= j < c ==> digit_value(#[trigger] m[r as int][j]) is Some,
            decreases cells[r as int].len() - c,
        {
            if char_to_digit(cells[r][c]).is_none() {
                assert(in_bounds(m, r as int, c as int) && digit_value(m[r as int][c as int]) is None);
                return false;
            }
            c += 1;
        }
        r += 1;
    }
    true
}

/// Searches a grid of digits for trails, and keeps the pairs of ends found
/// and the number of trails.
pub struct NumberPathFinder<'a> {
    grid: &'a Grid,
    unique_paths: Vec<Path>,
    total_paths: usize,
}

impl<'a> NumberPathFinder<'a> {
    /// The grid is well formed and no pair of ends is kept twice.
    pub closed spec fn wf(&self) -> bool {
        self.grid.wf() && self.unique_paths@.no_duplicates()
    }

    /// The cells of the grid that is searched.
    pub closed spec fn cells(&self) -> Seq<Seq<char>> {
        self.grid@
    }

    /// The pairs of ends found so far.
    pub closed spec fn found_ends(&self) -> Set<Path> {
        self.unique_paths@.to_set()
    }

    /// The number of trails found so far.
    pub closed spec fn found_total(&self) -> nat {
        self.total_paths as nat
    }

    /// A finder over `grid` that has found nothing yet.
    pub fn new(grid: &'a Grid) -> (finder: Self)
        requires
            grid.wf(),
        ensures
            finder.wf(),
            finder.cells() == grid@,
            finder.found_ends() == Set::<Path>::empty(),
            finder.found_total() == 0,
    {
        let finder = NumberPathFinder { grid, unique_paths: Vec::new(), total_paths: 0 };
        assert(finder.unique_paths@.to_set() =~= Set::<Path>::empty());
        finder
    }

    /// Finds every trail of the grid: adds their number to the total, and
    /// their pairs of ends to the pairs found. A grid with a cell that holds no
    /// digit is refused with `InvalidCharacter`, and nothing is added.
    pub fn find_all_paths(&mut self) -> (r: Result<(), GridError>)
        requires
            old(self).wf(),
            old(self).found_total() + trails(old(self).cells()).len() <= usize::MAX,
        ensures
            final(self).wf(),
            final(self).cells() == old(self).cells(),
            all_digits(old(self).cells()) ==> r is Ok,
            r is Ok ==> all_digits(old(self).cells()) && final(self).found_total() == old(
                self,
            ).found_total() + trails(old(self).cells()).len() && final(self).found_ends() == old(
                self,
            ).found_ends() + trail_ends(old(self).cells()),
            r matches Err(e) ==> e == GridError::InvalidCharacter && final(self).found_total() == old(
                self,
            ).found_total() && final(self).found_ends() == old(self).found_ends(),
    {
        let ghost m = self.grid@;
        if !only_digits(self.grid.cells()) {
            return Err(GridError::InvalidCharacter);
        }
        let zeros = self.grid.find_digit('0');
        proof {
            self.grid.lemma_wf_view();
            lemma_trails_by_start(m);
            lemma_positions_of(m, '0', m.len() as int, 0);
        }
        let mut i: usize = 0;
        while i < zeros.len()
            invariant
                i <= zeros.len(),
                self.wf(),
                self.grid == old(self).grid,
                m == self.grid@,
                is_addressable(m),
                zeros@ == positions_of(m, '0', m.len() as int, 0),
                forall|k: int|
                    0 <= k < zeros@.len() ==> cell_is(
                        m,
                        (#[trigger] zeros@[k]).row as int,
                        zeros@[k].col as int,
                        '0',
                    ),
                old(self).total_paths + ways_from_starts(m, zeros@, zeros@.len() as int) <= usize::MAX,
                self.total_paths == old(self).total_paths + ways_from_starts(m, zeros@, i as int),
                self.unique_paths@.to_set() == old(self).unique_paths@.to_set() + ends_from_starts(
                    m,
                    zeros@,
                    i as int,
                ),
            decreases zeros.len() - i,
        {
            let zero_pos = zeros[i];
            let ghost ends_before = self.unique_paths@.to_set();
            proof {
                lemma_ways_from_starts_monotone(m, zeros@, i as int + 1, zeros@.len() as int);
            }
            self.dfs_from(zero_pos, zero_pos, 0);
            proof {
                assert(ends_from_starts(m, zeros@, i as int + 1) =~= ends_from_starts(m, zeros@, i as int)
                    + ends_after(m, zero_pos, zero_pos.row as int, zero_pos.col as int, 0)) by {
                    assert forall|e: Path|
                        ends_from_starts(m, zeros@, i as int + 1).contains(e) <==> (ends_from_starts(
                            m,
                            zeros@,
                            i as int,
                        ) + ends_after(m, zero_pos, zero_pos.row as int, zero_pos.col as int, 0)).contains(
                            e,
                        ) by {
                        if ends_from_starts(m, zeros@, i as int + 1).contains(e) {
                            let j = choose|j: int|
                                0 <= j < i + 1 && #[trigger] zeros@[j] == e.start && reaches_after(
                                    m,
                                    e.start.row as int,
                                    e.start.col as int,
                                    0,
                                    e.end,
                                );
                            if j < i {
                                assert(ends_from_starts(m, zeros@, i as int).contains(e));
                            }
                        }
                        if ends_from_starts(m, zeros@, i as int).contains(e) {
                            let j = choose|j: int|
                                0 <= j < i && #[trigger] zeros@[j] == e.start && reaches_after(
                                    m,
                                    e.start.row as int,
                                    e.start.col as int,
                                    0,
                                    e.end,
                                );
                            assert(0 <= j < i + 1 && zeros@[j] == e.start);
                        }
                        if ends_after(m, zero_pos, zero_pos.row as int, zero_pos.col as int, 0).contains(e) {
                            assert(zeros@[i as int] == e.start);
                        }
                    }
                }
            }
            i += 1;
        }
        Ok(())
    }

    /// The search from `current`, taken to hold the digit `d`, on behalf of the
    /// trails that start in `start`.
    fn dfs_from(&mut self, start: Coord, current: Coord, d: u8)
        requires
            old(self).wf(),
            d <= 9,
            old(self).total_paths + count_after(
                old(self).grid@,
                current.row as int,
                current.col as int,
                d as int,
            ) <= usize::MAX,
        ensures
            final(self).wf(),
            final(self).grid == old(self).grid,
            final(self).total_paths == old(self).total_paths + count_after(
                old(self).grid@,
                current.row as int,
                current.col as int,
                d as int,
            ),
            final(self).unique_paths@.to_set() == old(self).unique_paths@.to_set() + ends_after(
                old(self).grid@,
                start,
                current.row as int,
                current.col as int,
                d as int,
            ),
    {
        explore(
            self.grid.cells(),
            start,
            current.row,
            current.col,
            d,
            &mut self.unique_paths,
            &mut self.total_paths,
        );
    }

    /// The search for trails from `current`, taken to hold `current_digit`, on
    /// behalf of the trails that start in `start`: it adds the number of ways up
    /// to a `9` to the total, and the pair of `start` and each end to the
    /// pairs found.
    pub fn dfs(&mut self, start: Coord, current: Coord, current_digit: char)
        requires
            old(self).wf(),
            digit_value(current_digit) is Some,
            old(self).found_total() + ways_after(
                old(self).cells(),
                current.row as int,
                current.col as int,
                digit_value(current_digit)->0,
            ) <= usize::MAX,
        ensures
            final(self).wf(),
            final(self).cells() == old(self).cells(),
            final(self).found_total() == old(self).found_total() + ways_after(
                old(self).cells(),
                current.row as int,
                current.col as int,
                digit_value(current_digit)->0,
            ),
            final(self).found_ends() == old(self).found_ends() + paths_after(
                old(self).cells(),
                start,
                current.row as int,
                current.col as int,
                digit_value(current_digit)->0,
            ),
    {
        proof {
            self.grid.lemma_wf_view();
            lemma_ways_after(
                self.grid@,
                start,
                current.row as int,
                current.col as int,
                digit_value(current_digit)->0,
            );
        }
        match char_to_digit(current_digit) {
            Some(d) => {
                self.dfs_from(start, current, d);
            },
            None => {},
        }
    }

    /// The number of distinct pairs of ends found.
    pub fn unique_path_count(&self) -> (n: usize)
        requires
            self.wf(),
        ensures
            n == self.found_ends().len(),
    {
        proof {
            self.unique_paths@.unique_seq_to_set();
        }
        self.unique_paths.len()
    }

    /// The number of trails found.
    pub fn total_path_count(&self) -> (n: usize)
        ensures
            n == self.found_total(),
    {
        self.total_paths
    }
}

/// The two counts of a search for trails.
#[derive(Clone, Copy, Debug, PartialEq, Eq, Structural)]
pub struct TrailCounts {
    /// The number of distinct pairs of a start and an end that a trail joins.
    pub unique: usize,
    /// The number of trails.
    pub total: usize,
}

/// Counts the trails of `grid` and the distinct pairs of ends that they
/// join. The pairs are never more than the trails. A grid with a cell that
/// holds no digit is refused with `InvalidCharacter`.
pub fn count_paths(grid: &Grid) -> (r: Result<TrailCounts, GridError>)
    requires
        grid.wf(),
        trails(grid@).len() <= usize::MAX,
    ensures
        all_digits(grid@) ==> r is Ok,
        r matches Ok(counts) ==> all_digits(grid@) && counts.unique == trail_ends(grid@).len()
            && counts.total == trails(grid@).len() && counts.unique <= counts.total,
        r matches Err(e) ==> e == GridError::InvalidCharacter && !all_digits(grid@),
{
    let mut finder = NumberPathFinder::new(grid);
    match finder.find_all_paths() {
        Ok(()) => {
            proof {
                grid.lemma_wf_view();
                lemma_unique_at_most_total(grid@);
                assert(finder.found_ends() =~= trail_ends(grid@));
            }
            Ok(TrailCounts { unique: finder.unique_path_count(), total: finder.total_path_count() })
        },
        Err(e) => Err(e),
    }
}

} // verus!
