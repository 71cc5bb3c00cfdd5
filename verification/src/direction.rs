//! The four headings on a grid and the steps that belong to them.

use vstd::prelude::*;

verus! {

/// A heading on the grid. North is towards row zero, west towards column zero.
#[derive(Clone, Copy, Debug, PartialEq, Eq, Hash, Structural)]
pub enum Direction {
    North,
    East,
    South,
    West,
}

impl Direction {
    /// The change of the row index with one step in this direction.
    pub open spec fn d_row(self) -> int {
        match self {
            Direction::North => -1,
            Direction::South => 1,
            _ => 0,
        }
    }

    /// The change of the column index with one step in this direction.
    pub open spec fn d_col(self) -> int {
        match self {
            Direction::East => 1,
            Direction::West => -1,
            _ => 0,
        }
    }

    /// The heading after a quarter turn to the right.
    pub open spec fn clockwise(self) -> Direction {
        match self {
            Direction::North => Direction::East,
            Direction::East => Direction::South,
            Direction::South => Direction::West,
            Direction::West => Direction::North,
        }
    }

    /// The heading that a marker character stands for.
    pub open spec fn of_marker(ch: char) -> Option<Direction> {
        if ch == '^' {
            Some(Direction::North)
        } else if ch == '>' {
            Some(Direction::East)
        } else if ch == 'v' {
            Some(Direction::South)
        } else if ch == '<' {
            Some(Direction::West)
        } else {
            None
        }
    }

    /// The heading after a quarter turn to the right.
    pub fn turn_right(self) -> (d: Direction)
        ensures
            d == self.clockwise(),
    {
        match self {
            Direction::North => Direction::East,
            Direction::East => Direction::South,
            Direction::South => Direction::West,
            Direction::West => Direction::North,
        }
    }

    /// The row and column offsets of one step in this direction.
    pub fn offset(self) -> (o: (isize, isize))
        ensures
            o.0 == self.d_row(),
            o.1 == self.d_col(),
    {
        match self {
            Direction::North => (-1, 0),
            Direction::East => (0, 1),
            Direction::South => (1, 0),
            Direction::West => (0, -1),
        }
    }

    /// The heading that `ch` stands for: `^`, `>`, `v` or `<`.
    pub fn from_marker(ch: char) -> (d: Option<Direction>)
        ensures
            d == Direction::of_marker(ch),
    {
        if ch == '^' {
            Some(Direction::North)
        } else if ch == '>' {
            Some(Direction::East)
        } else if ch == 'v' {
            Some(Direction::South)
        } else if ch == '<' {
            Some(Direction::West)
        } else {
            None
        }
    }
}

/// The offsets, in rows and columns, of the four orthogonal neighbours of a
/// cell: east, south, west, north.
pub open spec fn orthogonal_offsets() -> Seq<(int, int)> {
    seq![(0, 1), (1, 0), (0, -1), (-1, 0)]
}

/// The offsets, in rows and columns, of the eight cells round a cell: the
/// four orthogonal neighbours, then the four diagonal ones.
pub open spec fn surrounding_offsets() -> Seq<(int, int)> {
    seq![(0, 1), (0, -1), (1, 0), (-1, 0), (-1, -1), (-1, 1), (1, -1), (1, 1)]
}

/// The offset with the number `i` of the four orthogonal neighbours.
pub fn orthogonal_offset(i: usize) -> (d: (isize, isize))
    requires
        i < 4,
    ensures
        (d.0 as int, d.1 as int) == orthogonal_offsets()[i as int],
{
    if i == 0 {
        (0, 1)
    } else if i == 1 {
        (1, 0)
    } else if i == 2 {
        (0, -1)
    } else {
        (-1, 0)
    }
}

/// The offset with the number `i` of the eight cells round a cell.
pub fn surrounding_offset(i: usize) -> (d: (isize, isize))
    requires
        i < 8,
    ensures
        (d.0 as int, d.1 as int) == surrounding_offsets()[i as int],
{
    if i == 0 {
        (0, 1)
    } else if i == 1 {
        (0, -1)
    } else if i == 2 {
        (1, 0)
    } else if i == 3 {
        (-1, 0)
    } else if i == 4 {
        (-1, -1)
    } else if i == 5 {
        (-1, 1)
    } else if i == 6 {
        (1, -1)
    } else {
        (1, 1)
    }
}

} // verus!
