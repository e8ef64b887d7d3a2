//! The mathematical model of a pipe grid: which cells exist, which tile each
//! holds, and which neighbouring cells are joined by their shapes.

use crate::tile::{Direction, Tile};
use vstd::prelude::*;

verus! {

/// A cell of the grid, by row and column. Row 0 is the northern edge, column 0
/// the western one.
#[derive(Clone, Copy, Debug, PartialEq, Eq, Hash, Structural)]
pub struct Position {
    pub row: usize,
    pub col: usize,
}

/// The cell of a table of rows that the position `p` names.
pub open spec fn at<T>(rows: Seq<Seq<T>>, p: Position) -> T {
    rows[p.row as int][p.col as int]
}

/// A grid as its contracts see it: the rows of tiles and the cell of the start
/// marker.
pub struct Maze {
    pub tiles: Seq<Seq<Tile>>,
    pub start: Position,
}

impl Maze {
    /// Number of rows.
    pub open spec fn rows(self) -> nat {
        self.tiles.len()
    }

    /// Number of columns: the length of the first row.
    pub open spec fn cols(self) -> nat {
        if self.tiles.len() == 0 {
            0
        } else {
            self.tiles[0].len()
        }
    }

    /// Whether `p` is a cell of the grid.
    pub open spec fn contains(self, p: Position) -> bool {
        p.row < self.rows() && p.col < self.cols()
    }

    /// The tile at `p`.
    pub open spec fn tile(self, p: Position) -> Tile
        recommends
            self.contains(p),
    {
        self.tiles[p.row as int][p.col as int]
    }

    /// The grid is rectangular, its cells can be named by positions, and it
    /// holds the start marker at `start` and nowhere else.
    pub open spec fn wf(self) -> bool {
        &&& self.rows() <= usize::MAX
        &&& self.cols() <= usize::MAX
        &&& forall|r: int| 0 <= r < self.rows() ==> (#[trigger] self.tiles[r]).len() == self.cols()
        &&& self.contains(self.start)
        &&& forall|p: Position|
            self.contains(p) ==> (#[trigger] self.tile(p) == Tile::Start <==> p == self.start)
    }

    /// Whether `p` lies on the outer edge of the grid.
    pub open spec fn on_border(self, p: Position) -> bool {
        self.contains(p) && (p.row == 0 || p.col == 0 || p.row + 1 == self.rows() || p.col + 1
            == self.cols())
    }

    /// The cell next to `p` in direction `d`, or `None` where the grid ends.
    pub open spec fn neighbor(self, p: Position, d: Direction) -> Option<Position> {
        if !self.contains(p) {
            None
        } else {
            match d {
                Direction::North => if p.row > 0 {
                    Some(Position { row: (p.row - 1) as usize, col: p.col })
                } else {
                    None
                },
                Direction::South => if p.row + 1 < self.rows() && p.row < usize::MAX {
                    Some(Position { row: (p.row + 1) as usize, col: p.col })
                } else {
                    None
                },
                Direction::West => if p.col > 0 {
                    Some(Position { row: p.row, col: (p.col - 1) as usize })
                } else {
                    None
                },
                Direction::East => if p.col + 1 < self.cols() && p.col < usize::MAX {
                    Some(Position { row: p.row, col: (p.col + 1) as usize })
                } else {
                    None
                },
            }
        }
    }

    /// Whether the start may be left in direction `d`: there is a cell on that
    /// side and its shape has an arm pointing back at the start.
    pub open spec fn is_exit(self, d: Direction) -> bool {
        match self.neighbor(self.start, d) {
            Some(q) => self.tile(q).spec_connects(d.spec_opposite()),
            None => false,
        }
    }

    /// Number of directions in which the start may be left.
    pub open spec fn exit_count(self) -> nat {
        (if self.is_exit(Direction::North) {
            1nat
        } else {
            0nat
        }) + (if self.is_exit(Direction::South) {
            1nat
        } else {
            0nat
        }) + (if self.is_exit(Direction::West) {
            1nat
        } else {
            0nat
        }) + (if self.is_exit(Direction::East) {
            1nat
        } else {
            0nat
        })
    }

    /// The direction in which a walk leaves the start: the first exit in the
    /// order north, south, west, east.
    pub open spec fn first_exit(self) -> Direction {
        if self.is_exit(Direction::North) {
            Direction::North
        } else if self.is_exit(Direction::South) {
            Direction::South
        } else if self.is_exit(Direction::West) {
            Direction::West
        } else {
            Direction::East
        }
    }

    /// Whether the cell `p` has an arm in direction `d`. The start has the
    /// shape that its exits give it; every other cell has the shape of its
    /// tile.
    pub open spec fn links(self, p: Position, d: Direction) -> bool {
        if p == self.start {
            self.is_exit(d)
        } else {
            self.tile(p).spec_connects(d)
        }
    }

    /// Whether `q` is the cell next to `p` in direction `d` and the two are
    /// joined: `p` has an arm towards `q` and `q` one back towards `p`.
    pub open spec fn joined_along(self, p: Position, d: Direction, q: Position) -> bool {
        &&& self.neighbor(p, d) == Some(q)
        &&& self.links(p, d)
        &&& self.links(q, d.spec_opposite())
    }

    /// Whether `p` and `q` are adjacent cells joined by their shapes.
    pub open spec fn joined(self, p: Position, q: Position) -> bool {
        ||| self.joined_along(p, Direction::North, q)
        ||| self.joined_along(p, Direction::South, q)
        ||| self.joined_along(p, Direction::West, q)
        ||| self.joined_along(p, Direction::East, q)
    }

    /// Number of arms of the cell `p`.
    pub open spec fn link_count(self, p: Position) -> nat {
        (if self.links(p, Direction::North) {
            1nat
        } else {
            0nat
        }) + (if self.links(p, Direction::South) {
            1nat
        } else {
            0nat
        }) + (if self.links(p, Direction::West) {
            1nat
        } else {
            0nat
        }) + (if self.links(p, Direction::East) {
            1nat
        } else {
            0nat
        })
    }
}

/// Stepping to a neighbour and back returns to the cell one came from.
pub proof fn lemma_neighbor_back(m: Maze, p: Position, d: Direction, q: Position)
    requires
        m.neighbor(p, d) == Some(q),
    ensures
        m.contains(p),
        m.contains(q),
        q != p,
        m.neighbor(q, d.spec_opposite()) == Some(p),
{
}

/// Adjacent cells differ by one in exactly one coordinate, so the sums of their
/// row and column differ in parity.
pub proof fn lemma_neighbor_parity(m: Maze, p: Position, d: Direction, q: Position)
    requires
        m.neighbor(p, d) == Some(q),
    ensures
        (q.row + q.col) % 2 != (p.row + p.col) % 2,
{
}

/// Cells that are joined are adjacent, so the sums of their row and column
/// differ in parity.
pub proof fn lemma_joined_parity(m: Maze, p: Position, q: Position)
    requires
        m.joined(p, q),
    ensures
        (q.row + q.col) % 2 != (p.row + p.col) % 2,
{
    if m.joined_along(p, Direction::North, q) {
        lemma_neighbor_parity(m, p, Direction::North, q);
    } else if m.joined_along(p, Direction::South, q) {
        lemma_neighbor_parity(m, p, Direction::South, q);
    } else if m.joined_along(p, Direction::West, q) {
        lemma_neighbor_parity(m, p, Direction::West, q);
    } else {
        lemma_neighbor_parity(m, p, Direction::East, q);
    }
}

/// Being joined is symmetric.
pub proof fn lemma_joined_symmetric(m: Maze, p: Position, q: Position)
    requires
        m.joined(p, q),
    ensures
        m.joined(q, p),
        m.contains(p),
        m.contains(q),
        p != q,
{
    if m.joined_along(p, Direction::North, q) {
        lemma_neighbor_back(m, p, Direction::North, q);
        assert(m.joined_along(q, Direction::South, p));
    } else if m.joined_along(p, Direction::South, q) {
        lemma_neighbor_back(m, p, Direction::South, q);
        assert(m.joined_along(q, Direction::North, p));
    } else if m.joined_along(p, Direction::West, q) {
        lemma_neighbor_back(m, p, Direction::West, q);
        assert(m.joined_along(q, Direction::East, p));
    } else {
        lemma_neighbor_back(m, p, Direction::East, q);
        assert(m.joined_along(q, Direction::West, p));
    }
}

/// A cell that is not the start has no arm or two; the start has as many as it
/// has exits.
pub proof fn lemma_link_count(m: Maze, p: Position)
    ensures
        p != m.start ==> m.link_count(p) == 0 || m.link_count(p) == 2,
        p == m.start ==> m.link_count(p) == m.exit_count(),
{
}

/// A cell with at most two arms is joined to at most two cells: of any three
/// cells joined to it, two are the same.
pub proof fn lemma_joined_to_two(m: Maze, p: Position, x: Position, y: Position, z: Position)
    requires
        m.link_count(p) <= 2,
        m.joined(p, x),
        m.joined(p, y),
        m.joined(p, z),
    ensures
        x == y || y == z || x == z,
{
}

} // verus!
