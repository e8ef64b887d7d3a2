//! The grid of tiles as it is held in memory, and the checks that a table of
//! tiles must pass to become one.

use crate::maze::{Maze, Position};
use crate::table::Table;
use crate::tally::{count_in_row, count_in_rows, lemma_count_row_prefix, lemma_count_rows_prefix};
use crate::tile::{Direction, Tile};
use vstd::prelude::*;

verus! {

/// Why a text is not a grid, or why the pipes of a grid do not close into a
/// loop, each with the place at which the fault was found.
#[derive(Clone, Copy, Debug, PartialEq, Eq, Structural)]
pub enum PipeError {
    /// The character at this row and column is not in the lexicon.
    InvalidTile { at: Position },
    /// This row is not as long as the first one.
    InconsistentRowLength { row: usize },
    /// No cell holds the start marker.
    MissingStart,
    /// A second start marker stands at this cell.
    DuplicateStart { at: Position },
    /// The start, at this cell, has `exits` exits and not two.
    AmbiguousStart { at: Position, exits: usize },
    /// The walk along the pipes cannot go on from this cell.
    BrokenLoop { at: Position },
}

/// The rows of a vector of vectors as sequences.
pub open spec fn rows_of<T>(rows: Seq<Vec<T>>) -> Seq<Seq<T>> {
    Seq::new(rows.len(), |r: int| rows[r]@)
}

/// Number of start markers that come before the cell `p` in reading order.
pub open spec fn starts_before(rows: Seq<Seq<Tile>>, p: Position) -> nat
    recommends
        p.row < rows.len(),
        p.col <= rows[p.row as int].len(),
{
    count_in_rows(rows.take(p.row as int), Tile::Start) + count_in_row(
        rows[p.row as int].take(p.col as int),
        Tile::Start,
    )
}

/// Every row is as long as the first.
pub open spec fn is_rectangular<T>(rows: Seq<Seq<T>>) -> bool {
    forall|r: int| 0 <= r < rows.len() ==> (#[trigger] rows[r]).len() == rows[0].len()
}

/// Row `r` is the first that is not as long as the first row.
pub open spec fn is_first_ragged<T>(rows: Seq<Seq<T>>, r: int) -> bool {
    &&& 0 < r < rows.len()
    &&& rows[r].len() != rows[0].len()
    &&& forall|k: int| 0 <= k < r ==> (#[trigger] rows[k]).len() == rows[0].len()
}

/// A rectangular grid of tiles with exactly one start marker.
pub struct Grid {
    tiles: Table<Tile>,
    start: Position,
}

impl View for Grid {
    type V = Maze;

    closed spec fn view(&self) -> Maze {
        Maze { tiles: self.tiles@, start: self.start }
    }
}

impl Grid {
    /// The table behind the grid has the shape that the view shows.
    pub closed spec fn inv(&self) -> bool {
        &&& self.tiles.wf()
        &&& self.tiles.spec_rows() == self@.rows()
        &&& self.tiles.spec_cols() == self@.cols()
    }

    /// The grid is rectangular and holds one start marker, at `self@.start`.
    pub open spec fn wf(&self) -> bool {
        self.inv() && self@.wf()
    }

    /// Makes a grid of rows of tiles. The rows must be equally long and hold
    /// one start marker between them; the first row that is too long or too
    /// short is reported before a missing or a second start.
    pub fn from_rows(rows: &Vec<Vec<Tile>>) -> (r: Result<Grid, PipeError>)
        ensures
            r is Ok <==> is_rectangular(rows_of(rows@)) && count_in_rows(
                rows_of(rows@),
                Tile::Start,
            ) == 1,
            match r {
                Ok(grid) => grid.wf() && grid@.tiles == rows_of(rows@),
                Err(PipeError::InconsistentRowLength { row }) => is_first_ragged(
                    rows_of(rows@),
                    row as int,
                ),
                Err(PipeError::MissingStart) => is_rectangular(rows_of(rows@)) && count_in_rows(
                    rows_of(rows@),
                    Tile::Start,
                ) == 0,
                Err(PipeError::DuplicateStart { at }) => {
                    &&& is_rectangular(rows_of(rows@))
                    &&& at.row < rows@.len()
                    &&& at.col < rows@[at.row as int]@.len()
                    &&& rows@[at.row as int]@[at.col as int] == Tile::Start
                    &&& starts_before(rows_of(rows@), at) == 1
                    &&& count_in_rows(rows_of(rows@), Tile::Start) >= 2
                },
                Err(_) => false,
            },
    {
        let ghost all = rows_of(rows@);
        let height: usize = rows.len();
        let mut r: usize = 1;
        while r < height
            invariant
                1 <= r,
                height == rows@.len(),
                all == rows_of(rows@),
                forall|k: int| 0 <= k < r && k < height ==> (#[trigger] all[k]).len() == all[0].len(),
            decreases height - r,
        {
            if rows[r].len() != rows[0].len() {
                assert(all[r as int].len() != all[0].len());
                return Err(PipeError::InconsistentRowLength { row: r });
            }
            r += 1;
        }
        assert(is_rectangular(all));
        let width: usize = if height == 0 {
            0
        } else {
            rows[0].len()
        };
        let mut found: Option<Position> = None;
        let mut r: usize = 0;
        while r < height
            invariant
                r <= height,
                height == rows@.len(),
                all == rows_of(rows@),
                is_rectangular(all),
                height > 0 ==> width == all[0].len(),
                found is None ==> count_in_rows(all.take(r as int), Tile::Start) == 0,
                found is Some ==> count_in_rows(all.take(r as int), Tile::Start) == 1,
                found is Some ==> found->0.row < r && found->0.col < width,
                forall|k: int, c: int|
                    0 <= k < r && 0 <= c < width ==> ((#[trigger] all[k][c]) == Tile::Start <==> found
                        == Some(Position { row: k as usize, col: c as usize })),
            decreases height - r,
        {
            let row = &rows[r];
            assert(row@ == all[r as int]);
            let mut c: usize = 0;
            proof {
                assert(row@.take(0) =~= Seq::<Tile>::empty());
            }
            while c < width
                invariant
                    c <= width,
                    r < height,
                    height == rows@.len(),
                    all == rows_of(rows@),
                    row@ == all[r as int],
                    row@.len() == width,
                    is_rectangular(all),
                    count_in_rows(all.take(r as int), Tile::Start) + count_in_row(
                        row@.take(c as int),
                        Tile::Start,
                    ) == (if found is Some {
                        1nat
                    } else {
                        0nat
                    }),
                    found is Some ==> found->0.col < width && (found->0.row < r || (found->0.row == r
                        && found->0.col < c)),
                    forall|k: int, j: int|
                        0 <= k < r && 0 <= j < width ==> ((#[trigger] all[k][j]) == Tile::Start
                            <==> found == Some(Position { row: k as usize, col: j as usize })),
                    forall|j: int|
                        0 <= j < c ==> ((#[trigger] row@[j]) == Tile::Start <==> found == Some(
                            Position { row: r, col: j as usize },
                        )),
                decreases width - c,
            {
                proof {
                    assert(row@.take(c + 1).drop_last() =~= row@.take(c as int));
                }
                if row[c] == Tile::Start {
                    if found.is_some() {
                        let at = Position { row: r, col: c };
                        proof {
                            lemma_count_rows_prefix(all, Tile::Start, r as int + 1);
                            assert(all.take(r + 1).drop_last() =~= all.take(r as int));
                            lemma_count_row_prefix(row@, Tile::Start, c as int + 1);
                        }
                        return Err(PipeError::DuplicateStart { at });
                    }
                    found = Some(Position { row: r, col: c });
                }
                c += 1;
            }
            proof {
                assert(row@.take(width as int) =~= row@);
                assert(all.take(r + 1).drop_last() =~= all.take(r as int));
            }
            r += 1;
        }
        proof {
            assert(all.take(height as int) =~= all);
        }
        match found {
            None => Err(PipeError::MissingStart),
            Some(start) => {
                proof {
                    assert forall|k: int| 0 <= k < rows@.len() implies (#[trigger] rows@[k])@.len()
                        == rows@[0]@.len() by {
                        assert(all[k].len() == all[0].len());
                    }
                }
                let tiles = Table::from_rows(rows);
                let grid = Grid { tiles, start };
                proof {
                    assert(grid@.tiles =~= all);
                    assert forall|p: Position| grid@.contains(p) implies (#[trigger] grid@.tile(p)
                        == Tile::Start <==> p == start) by {
                        assert(all[p.row as int][p.col as int] == Tile::Start <==> found == Some(
                            Position { row: p.row as int as usize, col: p.col as int as usize },
                        ));
                    }
                }
                Ok(grid)
            },
        }
    }

    /// Number of rows.
    pub fn rows(&self) -> (n: usize)
        requires
            self.wf(),
        ensures
            n == self@.rows(),
            n >= 1,
    {
        self.tiles.rows()
    }

    /// Number of columns.
    pub fn cols(&self) -> (n: usize)
        requires
            self.wf(),
        ensures
            n == self@.cols(),
            n >= 1,
    {
        self.tiles.cols()
    }

    /// The cell of the start marker.
    pub fn start(&self) -> (p: Position)
        ensures
            p == self@.start,
    {
        self.start
    }

    /// The table of tiles behind the grid.
    pub fn tiles(&self) -> (t: &Table<Tile>)
        requires
            self.wf(),
        ensures
            t.wf(),
            t@ == self@.tiles,
            t.spec_rows() == self@.rows(),
            t.spec_cols() == self@.cols(),
    {
        &self.tiles
    }

    /// The tile at `p`.
    pub fn tile(&self, p: Position) -> (t: Tile)
        requires
            self.wf(),
            self@.contains(p),
        ensures
            t == self@.tile(p),
    {
        self.tiles.get(p.row, p.col)
    }

    /// The cell next to `p` in direction `d`, or `None` where the grid ends.
    pub fn neighbor(&self, p: Position, d: Direction) -> (q: Option<Position>)
        requires
            self.wf(),
        ensures
            q == self@.neighbor(p, d),
    {
        let rows: usize = self.tiles.rows();
        let cols: usize = self.tiles.cols();
        if p.row >= rows || p.col >= cols {
            return None;
        }
        match d {
            Direction::North => if p.row > 0 {
                Some(Position { row: p.row - 1, col: p.col })
            } else {
                None
            },
            Direction::South => if p.row + 1 < rows {
                Some(Position { row: p.row + 1, col: p.col })
            } else {
                None
            },
            Direction::West => if p.col > 0 {
                Some(Position { row: p.row, col: p.col - 1 })
            } else {
                None
            },
            Direction::East => if p.col + 1 < cols {
                Some(Position { row: p.row, col: p.col + 1 })
            } else {
                None
            },
        }
    }

    /// Whether the cell `p` has an arm in direction `d`; the start has one
    /// towards each of its exits.
    pub fn links(&self, p: Position, d: Direction) -> (b: bool)
        requires
            self.wf(),
            self@.contains(p),
        ensures
            b == self@.links(p, d),
    {
        if p == self.start {
            self.is_exit(d)
        } else {
            self.tile(p).connects(d)
        }
    }

    /// Whether the start may be left in direction `d`.
    pub fn is_exit(&self, d: Direction) -> (b: bool)
        requires
            self.wf(),
        ensures
            b == self@.is_exit(d),
    {
        match self.neighbor(self.start, d) {
            Some(q) => self.tile(q).connects(d.opposite()),
            None => false,
        }
    }
}

/// Whether the cell `p` comes before the cell `q` in reading order.
pub open spec fn reads_before(p: Position, q: Position) -> bool {
    p.row < q.row || (p.row == q.row && p.col < q.col)
}

/// A start marker counts among those of the grid, after those that come
/// before it.
pub proof fn lemma_start_is_counted(tiles: Seq<Seq<Tile>>, at: Position)
    requires
        at.row < tiles.len(),
        at.col < tiles[at.row as int].len(),
        tiles[at.row as int][at.col as int] == Tile::Start,
    ensures
        count_in_rows(tiles, Tile::Start) >= starts_before(tiles, at) + 1,
{
    let r = at.row as int;
    let c = at.col as int;
    let row = tiles[r];
    assert(row.take(c + 1).drop_last() =~= row.take(c));
    lemma_count_row_prefix(row, Tile::Start, c + 1);
    assert(tiles.take(r + 1).drop_last() =~= tiles.take(r));
    lemma_count_rows_prefix(tiles, Tile::Start, r + 1);
}

/// Of two start markers the later has more start markers before it.
pub proof fn lemma_starts_before_grows(tiles: Seq<Seq<Tile>>, p: Position, q: Position)
    requires
        q.row < tiles.len(),
        q.col <= tiles[q.row as int].len(),
        p.col < tiles[p.row as int].len(),
        tiles[p.row as int][p.col as int] == Tile::Start,
        reads_before(p, q),
    ensures
        starts_before(tiles, q) >= starts_before(tiles, p) + 1,
{
    let row = tiles[p.row as int];
    let c = p.col as int;
    assert(row.take(c + 1).drop_last() =~= row.take(c));
    if p.row == q.row {
        let longer = row.take(q.col as int);
        assert(longer.take(c + 1) =~= row.take(c + 1));
        lemma_count_row_prefix(longer, Tile::Start, c + 1);
    } else {
        let r = p.row as int;
        let above = tiles.take(q.row as int);
        lemma_count_row_prefix(row, Tile::Start, c + 1);
        assert(above.take(r + 1) =~= tiles.take(r + 1));
        assert(tiles.take(r + 1).drop_last() =~= tiles.take(r));
        lemma_count_rows_prefix(above, Tile::Start, r + 1);
    }
}

} // verus!
