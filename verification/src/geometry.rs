//! Oriented edges of the cell grid.
//!
//! Cell corners are the nodes of the grid. A [`Position`] names an edge
//! between two neighbouring nodes together with the direction in which it is
//! walked: `(row, col)` with `Left`/`Right` is the horizontal edge from node
//! `(row, col)` to `(row, col + 1)`, and with `Up`/`Down` the vertical edge from
//! node `(row, col)` to `(row + 1, col)`.

use vstd::prelude::*;

verus! {

#[derive(Clone, Copy, Debug, PartialEq, Eq, Structural)]
pub enum Direction {
    Up,
    Down,
    Right,
    Left,
}

impl Direction {
    pub open spec fn flipped(self) -> Direction {
        match self {
            Direction::Up => Direction::Down,
            Direction::Down => Direction::Up,
            Direction::Right => Direction::Left,
            Direction::Left => Direction::Right,
        }
    }

    pub open spec fn is_horizontal(self) -> bool {
        self == Direction::Left || self == Direction::Right
    }

    /// The opposite direction.
    pub fn flip(self) -> (r: Self)
        ensures
            r == self.flipped(),
    {
        match self {
            Self::Up => Self::Down,
            Self::Down => Self::Up,
            Self::Right => Self::Left,
            Self::Left => Self::Right,
        }
    }
}

/// An oriented position on one edge of the cell grid.
#[derive(Clone, Copy, Debug, PartialEq, Eq, Structural)]
pub struct Position {
    pub row: i16,
    pub col: i16,
    pub dir: Direction,
}

/// The node at which an edge named by `(row, col)` ends when walked in `dir`.
pub open spec fn end_of(row: int, col: int, dir: Direction) -> (int, int) {
    match dir {
        Direction::Up | Direction::Left => (row, col),
        Direction::Down => (row + 1, col),
        Direction::Right => (row, col + 1),
    }
}

impl Position {
    /// Both coordinates leave room for one step in every direction.
    pub open spec fn movable(self) -> bool {
        i16::MIN < self.row < i16::MAX && i16::MIN < self.col < i16::MAX
    }

    pub open spec fn end_spec(self) -> (int, int) {
        end_of(self.row as int, self.col as int, self.dir)
    }

    pub open spec fn start_spec(self) -> (int, int) {
        end_of(self.row as int, self.col as int, self.dir.flipped())
    }

    /// Going on in the same direction from the end node.
    pub open spec fn straight_spec(self) -> (int, int, Direction) {
        let (r, c) = (self.row as int, self.col as int);
        match self.dir {
            Direction::Up => (r - 1, c, Direction::Up),
            Direction::Down => (r + 1, c, Direction::Down),
            Direction::Right => (r, c + 1, Direction::Right),
            Direction::Left => (r, c - 1, Direction::Left),
        }
    }

    /// Turning a quarter counter-clockwise at the end node.
    pub open spec fn left_spec(self) -> (int, int, Direction) {
        let (r, c) = (self.row as int, self.col as int);
        match self.dir {
            Direction::Up => (r, c - 1, Direction::Left),
            Direction::Down => (r + 1, c, Direction::Right),
            Direction::Right => (r - 1, c + 1, Direction::Up),
            Direction::Left => (r, c, Direction::Down),
        }
    }

    /// Turning a quarter clockwise at the end node.
    pub open spec fn right_spec(self) -> (int, int, Direction) {
        let (r, c) = (self.row as int, self.col as int);
        match self.dir {
            Direction::Up => (r, c, Direction::Right),
            Direction::Down => (r + 1, c - 1, Direction::Left),
            Direction::Right => (r, c + 1, Direction::Down),
            Direction::Left => (r - 1, c, Direction::Up),
        }
    }

    pub open spec fn is(self, t: (int, int, Direction)) -> bool {
        self.row == t.0 && self.col == t.1 && self.dir == t.2
    }

    /// The node the walk reaches at the end of this edge.
    pub fn end_node(self) -> (r: (i16, i16))
        requires
            self.movable(),
        ensures
            (r.0 as int, r.1 as int) == self.end_spec(),
    {
        match self.dir {
            Direction::Up | Direction::Left => (self.row, self.col),
            Direction::Down => (self.row + 1, self.col),
            Direction::Right => (self.row, self.col + 1),
        }
    }

    /// The node the walk leaves at the start of this edge.
    pub fn start_node(self) -> (r: (i16, i16))
        requires
            self.movable(),
        ensures
            (r.0 as int, r.1 as int) == self.start_spec(),
    {
        Self { dir: self.dir.flip(), ..self }.end_node()
    }

    pub fn straight(self) -> (r: Self)
        requires
            self.movable(),
        ensures
            r.is(self.straight_spec()),
    {
        let (row, col) = match self.dir {
            Direction::Up => (self.row - 1, self.col),
            Direction::Down => (self.row + 1, self.col),
            Direction::Right => (self.row, self.col + 1),
            Direction::Left => (self.row, self.col - 1),
        };
        Self { row, col, ..self }
    }

    pub fn left(self) -> (r: Self)
        requires
            self.movable(),
        ensures
            r.is(self.left_spec()),
    {
        let (row, col, dir) = match self.dir {
            Direction::Up => (self.row, self.col - 1, Direction::Left),
            Direction::Down => (self.row + 1, self.col, Direction::Right),
            Direction::Right => (self.row - 1, self.col + 1, Direction::Up),
            Direction::Left => (self.row, self.col, Direction::Down),
        };
        Self { row, col, dir }
    }

    pub fn right(self) -> (r: Self)
        requires
            self.movable(),
        ensures
            r.is(self.right_spec()),
    {
        let (row, col, dir) = match self.dir {
            Direction::Up => (self.row, self.col, Direction::Right),
            Direction::Down => (self.row + 1, self.col - 1, Direction::Left),
            Direction::Right => (self.row, self.col + 1, Direction::Down),
            Direction::Left => (self.row - 1, self.col, Direction::Up),
        };
        Self { row, col, dir }
    }
}

/// Every one of the three ways on leaves the node at which `p` ends.
pub proof fn lemma_turns_start_at_end(p: Position)
    ensures
        end_of(p.straight_spec().0, p.straight_spec().1, p.straight_spec().2.flipped()) == p.end_spec(),
        end_of(p.left_spec().0, p.left_spec().1, p.left_spec().2.flipped()) == p.end_spec(),
        end_of(p.right_spec().0, p.right_spec().1, p.right_spec().2.flipped()) == p.end_spec(),
{
}

} // verus!
