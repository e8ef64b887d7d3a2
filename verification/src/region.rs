//! Sorting the cells of a grid into those on the loop, those outside it and
//! those it encloses.

use crate::enclosure::{
    arms_left, crossings, has_arm, is_enclosed, lemma_reaches_border_unfold,
    lemma_reaching_border_not_enclosed, reaches_border, reaches_border_through,
    reaches_border_within,
};
use crate::grid::Grid;
use crate::maze::{at, Maze, Position};
use crate::table::Table;
use crate::tally::{
    count_in_row, count_in_rows, lemma_count_cell_set, lemma_count_row_prefix,
    lemma_count_rows_bound, lemma_count_rows_prefix, lemma_count_rows_same,
};
use crate::tile::Direction;
use crate::trail::{is_loop, lemma_loop_cells, lemma_take_contains, loop_length};
use vstd::prelude::*;

verus! {

/// The three parts into which a loop divides the grid.
#[derive(Clone, Copy, Debug, PartialEq, Eq, Hash, Structural)]
pub enum Region {
    OnLoop,
    Outside,
    Inside,
}

/// The part of the grid that the cell `p` belongs to: the loop itself, or,
/// by the parity of the crossings of the ray to it, the inside or the outside.
pub open spec fn region_of(m: Maze, path: Seq<Position>, p: Position) -> Region {
    if path.contains(p) {
        Region::OnLoop
    } else if crossings(m, path, p) % 2 == 1 {
        Region::Inside
    } else {
        Region::Outside
    }
}

/// The region of every cell of the grid, row by row.
pub open spec fn partition_of(m: Maze, path: Seq<Position>) -> Seq<Seq<Region>> {
    Seq::new(
        m.rows(),
        |r: int|
            Seq::new(m.cols(), |c: int| region_of(m, path, Position { row: r as usize, col: c as usize })),
    )
}

/// Whether the cell next to `p` in direction `d` is marked in `open`.
pub open spec fn opens_onto(m: Maze, open: Seq<Seq<bool>>, p: Position, d: Direction) -> bool {
    m.neighbor(p, d) is Some && at(open, m.neighbor(p, d)->0)
}

/// Whether the flood has nothing more to do at the cell `p`: it is on the
/// loop, or marked already, or neither on the edge nor next to a marked cell.
pub open spec fn is_settled(m: Maze, path: Seq<Position>, open: Seq<Seq<bool>>, p: Position) -> bool {
    ||| path.contains(p)
    ||| at(open, p)
    ||| {
        &&& !m.on_border(p)
        &&& !opens_onto(m, open, p, Direction::North)
        &&& !opens_onto(m, open, p, Direction::South)
        &&& !opens_onto(m, open, p, Direction::West)
        &&& !opens_onto(m, open, p, Direction::East)
    }
}

/// Once the flood has nothing more to do anywhere, it has marked every cell
/// from which the edge can be reached.
pub proof fn lemma_settled_is_complete(
    m: Maze,
    path: Seq<Position>,
    open: Seq<Seq<bool>>,
    p: Position,
    n: nat,
)
    requires
        forall|q: Position| m.contains(q) ==> #[trigger] is_settled(m, path, open, q),
        reaches_border_within(m, path, p, n),
    ensures
        at(open, p),
    decreases n,
{
    lemma_reaches_border_unfold(m, path, p, n);
    assert(is_settled(m, path, open, p));
    if !m.on_border(p) {
        let d = if reaches_border_through(m, path, p, Direction::North, (n - 1) as nat) {
            Direction::North
        } else if reaches_border_through(m, path, p, Direction::South, (n - 1) as nat) {
            Direction::South
        } else if reaches_border_through(m, path, p, Direction::West, (n - 1) as nat) {
            Direction::West
        } else {
            Direction::East
        };
        assert(reaches_border_through(m, path, p, d, (n - 1) as nat));
        lemma_settled_is_complete(m, path, open, m.neighbor(p, d)->0, (n - 1) as nat);
    }
}

/// Marks the cells of the loop.
///
/// The table returned has the shape of the grid and holds `true` exactly at
/// the cells of `path`; it holds as many of them as the loop has steps.
pub fn mark_loop(grid: &Grid, path: &Vec<Position>) -> (marks: Table<bool>)
    requires
        grid.wf(),
        is_loop(grid@, path@),
    ensures
        marks.wf(),
        marks.spec_rows() == grid@.rows(),
        marks.spec_cols() == grid@.cols(),
        forall|p: Position| grid@.contains(p) ==> #[trigger] at(marks@, p) == path@.contains(p),
        count_in_rows(marks@, true) == loop_length(path@),
{
    let mut marks: Table<bool> = Table::filled_like(grid.tiles(), false);
    let steps: usize = path.len() - 1;
    proof {
        lemma_loop_cells(grid@, path@);
        lemma_count_none(marks@, true);
        assert forall|p: Position| grid@.contains(p) implies #[trigger] at(marks@, p) == path@.take(
            0,
        ).contains(p) by {
            assert(marks@[p.row as int][p.col as int] == false);
        }
    }
    let mut k: usize = 0;
    while k < steps
        invariant
            steps == path@.len() - 1,
            k <= steps,
            marks.wf(),
            marks.spec_rows() == grid@.rows(),
            marks.spec_cols() == grid@.cols(),
            forall|i: int| 0 <= i < path@.len() ==> grid@.contains(#[trigger] path@[i]),
            forall|i: int, j: int| 0 <= i < j < path@.len() - 1 ==> path@[i] != path@[j],
            forall|p: Position|
                grid@.contains(p) ==> #[trigger] at(marks@, p) == path@.take(k as int).contains(p),
            count_in_rows(marks@, true) == k,
        decreases steps - k,
    {
        let cell = path[k];
        let ghost before = marks@;
        proof {
            assert(grid@.contains(path@[k as int]));
            if path@.take(k as int).contains(cell) {
                let i = choose|i: int| 0 <= i < k && path@.take(k as int)[i] == cell;
                assert(path@[i] != path@[k as int]);
            }
            assert(!at(before, cell));
        }
        marks.set(cell.row, cell.col, true);
        proof {
            lemma_count_cell_set(before, cell.row as int, cell.col as int, true, true);
            assert forall|p: Position| grid@.contains(p) implies #[trigger] at(marks@, p) == path@.take(
                k + 1,
            ).contains(p) by {
                lemma_take_contains(path@, k as int, p);
                if p != cell {
                    assert(at(marks@, p) == at(before, p));
                }
            }
        }
        k += 1;
    }
    proof {
        assert(path@.last() == path@[0]);
        assert forall|p: Position| grid@.contains(p) implies #[trigger] at(marks@, p) == path@.contains(
            p,
        ) by {
            lemma_take_contains(path@, steps as int, p);
            assert(path@.take(steps + 1) =~= path@);
            if path@[steps as int] == p {
                assert(path@.take(steps as int)[0] == p);
            }
        }
    }
    marks
}

/// Whether the cell next to `p` in direction `d` is marked in `open`.
fn neighbor_is_open(grid: &Grid, open: &Table<bool>, p: Position, d: Direction) -> (b: bool)
    requires
        grid.wf(),
        open.wf(),
        open.spec_rows() == grid@.rows(),
        open.spec_cols() == grid@.cols(),
    ensures
        b == opens_onto(grid@, open@, p, d),
{
    match grid.neighbor(p, d) {
        Some(q) => open.get(q.row, q.col),
        None => false,
    }
}

/// Whether `p` lies on the outer edge of the grid.
pub fn on_border(grid: &Grid, p: Position) -> (b: bool)
    requires
        grid.wf(),
    ensures
        b == grid@.on_border(p),
{
    let rows: usize = grid.rows();
    let cols: usize = grid.cols();
    p.row < rows && p.col < cols && (p.row == 0 || p.col == 0 || p.row == rows - 1 || p.col == cols
        - 1)
}

/// One sweep of the flood over all cells, in reading order: every cell that is
/// neither on the loop nor marked, and lies on the edge or next to a marked
/// cell, is marked. Returns whether any cell was marked.
fn sweep(
    grid: &Grid,
    walls: &Table<bool>,
    open: &mut Table<bool>,
    Ghost(path): Ghost<Seq<Position>>,
) -> (changed: bool)
    requires
        grid.wf(),
        walls.wf(),
        walls.spec_rows() == grid@.rows(),
        walls.spec_cols() == grid@.cols(),
        old(open).wf(),
        old(open).spec_rows() == grid@.rows(),
        old(open).spec_cols() == grid@.cols(),
        forall|p: Position| grid@.contains(p) ==> #[trigger] at(walls@, p) == path.contains(p),
        forall|p: Position|
            grid@.contains(p) && #[trigger] at(old(open)@, p) ==> reaches_border(grid@, path, p),
    ensures
        final(open).wf(),
        final(open).spec_rows() == grid@.rows(),
        final(open).spec_cols() == grid@.cols(),
        forall|p: Position|
            grid@.contains(p) && #[trigger] at(final(open)@, p) ==> reaches_border(grid@, path, p),
        changed ==> count_in_rows(final(open)@, true) > count_in_rows(old(open)@, true),
        !changed ==> final(open)@ == old(open)@,
        !changed ==> forall|p: Position|
            grid@.contains(p) ==> #[trigger] is_settled(grid@, path, final(open)@, p),
{
    let rows: usize = grid.rows();
    let cols: usize = grid.cols();
    let ghost before = open@;
    let mut changed = false;
    let mut r: usize = 0;
    while r < rows
        invariant
            grid.wf(),
            rows == grid@.rows(),
            cols == grid@.cols(),
            r <= rows,
            walls.wf(),
            walls.spec_rows() == grid@.rows(),
            walls.spec_cols() == grid@.cols(),
            open.wf(),
            open.spec_rows() == grid@.rows(),
            open.spec_cols() == grid@.cols(),
            forall|p: Position| grid@.contains(p) ==> #[trigger] at(walls@, p) == path.contains(p),
            forall|p: Position|
                grid@.contains(p) && #[trigger] at(open@, p) ==> reaches_border(grid@, path, p),
            changed ==> count_in_rows(open@, true) > count_in_rows(before, true),
            !changed ==> open@ == before,
            !changed ==> forall|p: Position|
                grid@.contains(p) && p.row < r ==> #[trigger] is_settled(grid@, path, open@, p),
        decreases rows - r,
    {
        let mut c: usize = 0;
        while c < cols
            invariant
                grid.wf(),
                rows == grid@.rows(),
                cols == grid@.cols(),
                r < rows,
                c <= cols,
                walls.wf(),
                walls.spec_rows() == grid@.rows(),
                walls.spec_cols() == grid@.cols(),
                open.wf(),
                open.spec_rows() == grid@.rows(),
                open.spec_cols() == grid@.cols(),
                forall|p: Position| grid@.contains(p) ==> #[trigger] at(walls@, p) == path.contains(p),
                forall|p: Position|
                    grid@.contains(p) && #[trigger] at(open@, p) ==> reaches_border(grid@, path, p),
                changed ==> count_in_rows(open@, true) > count_in_rows(before, true),
                !changed ==> open@ == before,
                !changed ==> forall|p: Position|
                    grid@.contains(p) && (p.row < r || (p.row == r && p.col < c))
                        ==> #[trigger] is_settled(grid@, path, open@, p),
            decreases cols - c,
        {
            let p = Position { row: r, col: c };
            assert(grid@.contains(p));
            assert(at(walls@, p) == path.contains(p));
            if !walls.get(r, c) && !open.get(r, c) {
                let north = neighbor_is_open(grid, open, p, Direction::North);
                let south = neighbor_is_open(grid, open, p, Direction::South);
                let west = neighbor_is_open(grid, open, p, Direction::West);
                let east = neighbor_is_open(grid, open, p, Direction::East);
                if on_border(grid, p) || north || south || west || east {
                    let ghost earlier = open@;
                    proof {
                        lemma_flood_step(grid@, path, earlier, p);
                        lemma_count_cell_set(earlier, r as int, c as int, true, true);
                    }
                    open.set(r, c, true);
                    changed = true;
                    proof {
                        assert forall|q: Position| grid@.contains(q) && #[trigger] at(
                            open@,
                            q,
                        ) implies reaches_border(grid@, path, q) by {
                            if q != p {
                                assert(at(open@, q) == at(earlier, q));
                            }
                        }
                    }
                }
            }
            c += 1;
        }
        r += 1;
    }
    changed
}

/// A cell off the loop that lies on the edge of the grid, or next to a cell
/// from which the edge can be reached, can reach the edge itself.
pub proof fn lemma_flood_step(m: Maze, path: Seq<Position>, open: Seq<Seq<bool>>, p: Position)
    requires
        m.contains(p),
        !path.contains(p),
        forall|q: Position| m.contains(q) && #[trigger] at(open, q) ==> reaches_border(m, path, q),
        m.on_border(p) || opens_onto(m, open, p, Direction::North) || opens_onto(
            m,
            open,
            p,
            Direction::South,
        ) || opens_onto(m, open, p, Direction::West) || opens_onto(m, open, p, Direction::East),
    ensures
        reaches_border(m, path, p),
{
    if m.on_border(p) {
        assert(reaches_border_within(m, path, p, 0));
    } else {
        let d = if opens_onto(m, open, p, Direction::North) {
            Direction::North
        } else if opens_onto(m, open, p, Direction::South) {
            Direction::South
        } else if opens_onto(m, open, p, Direction::West) {
            Direction::West
        } else {
            Direction::East
        };
        let q = m.neighbor(p, d)->0;
        assert(m.contains(q) && at(open, q));
        let n = choose|n: nat| reaches_border_within(m, path, q, n);
        assert(reaches_border_through(m, path, p, d, n));
        lemma_reaches_border_unfold(m, path, p, n + 1);
        assert(reaches_border_within(m, path, p, n + 1));
    }
}

/// Finds the cells from which the edge of the grid can be reached without
/// stepping on the loop, by flooding inwards from the edge.
///
/// `walls` marks the cells of the loop. The table returned has the shape of
/// the grid and holds `true` exactly at the cells that reach the edge.
fn flood(grid: &Grid, walls: &Table<bool>, Ghost(path): Ghost<Seq<Position>>) -> (open: Table<bool>)
    requires
        grid.wf(),
        walls.wf(),
        walls.spec_rows() == grid@.rows(),
        walls.spec_cols() == grid@.cols(),
        forall|p: Position| grid@.contains(p) ==> #[trigger] at(walls@, p) == path.contains(p),
    ensures
        open.wf(),
        open.spec_rows() == grid@.rows(),
        open.spec_cols() == grid@.cols(),
        forall|p: Position| grid@.contains(p) ==> #[trigger] at(open@, p) == reaches_border(grid@, path, p),
{
    let mut open: Table<bool> = Table::filled_like(walls, false);
    let mut changed = true;
    proof {
        assert forall|p: Position| grid@.contains(p) && #[trigger] at(open@, p) implies reaches_border(
            grid@,
            path,
            p,
        ) by {
            assert(open@[p.row as int][p.col as int] == false);
        }
        lemma_count_rows_bound(open@, true, grid@.cols());
    }
    while changed
        invariant
            grid.wf(),
            walls.wf(),
            walls.spec_rows() == grid@.rows(),
            walls.spec_cols() == grid@.cols(),
            open.wf(),
            open.spec_rows() == grid@.rows(),
            open.spec_cols() == grid@.cols(),
            forall|p: Position| grid@.contains(p) ==> #[trigger] at(walls@, p) == path.contains(p),
            forall|p: Position|
                grid@.contains(p) && #[trigger] at(open@, p) ==> reaches_border(grid@, path, p),
            count_in_rows(open@, true) <= grid@.rows() * grid@.cols(),
            !changed ==> forall|p: Position|
                grid@.contains(p) ==> #[trigger] is_settled(grid@, path, open@, p),
        decreases
                grid@.rows() * grid@.cols() - count_in_rows(open@, true),
                if changed {
                    1nat
                } else {
                    0nat
                },
    {
        changed = sweep(grid, walls, &mut open, Ghost(path));
        proof {
            lemma_count_rows_bound(open@, true, grid@.cols());
        }
    }
    proof {
        assert forall|p: Position| grid@.contains(p) implies #[trigger] at(open@, p) == reaches_border(
            grid@,
            path,
            p,
        ) by {
            if reaches_border(grid@, path, p) {
                let n = choose|n: nat| reaches_border_within(grid@, path, p, n);
                lemma_settled_is_complete(grid@, path, open@, p, n);
            }
        }
    }
    open
}

/// Finds the cells that lie outside the loop by reachability alone.
///
/// The table returned has the shape of the grid and holds `true` exactly at
/// the cells from which the edge of the grid can be reached by steps to
/// neighbouring cells that never stand on the loop.
pub fn flood_outside(grid: &Grid, path: &Vec<Position>) -> (open: Table<bool>)
    requires
        grid.wf(),
        is_loop(grid@, path@),
    ensures
        open.wf(),
        open.spec_rows() == grid@.rows(),
        open.spec_cols() == grid@.cols(),
        forall|p: Position|
            grid@.contains(p) ==> #[trigger] at(open@, p) == reaches_border(grid@, path@, p),
{
    let walls = mark_loop(grid, path);
    flood(grid, &walls, Ghost(path@))
}

/// The grid sorted into its three regions.
pub struct Partition {
    regions: Table<Region>,
}

impl View for Partition {
    type V = Seq<Seq<Region>>;

    /// The region of every cell, row by row.
    closed spec fn view(&self) -> Seq<Seq<Region>> {
        self.regions@
    }
}

impl Partition {
    /// The partition is a table of equally long rows.
    pub closed spec fn wf(&self) -> bool {
        self.regions.wf()
    }

    /// Number of cells in each row.
    pub closed spec fn spec_cols(&self) -> nat {
        self.regions.spec_cols()
    }

    /// The rows of a partition all have `spec_cols()` cells.
    pub proof fn lemma_shape(&self)
        requires
            self.wf(),
        ensures
            forall|r: int| 0 <= r < self@.len() ==> (#[trigger] self@[r]).len() == self.spec_cols(),
    {
    }

    /// Number of rows.
    pub fn rows(&self) -> (n: usize)
        requires
            self.wf(),
        ensures
            n == self@.len(),
    {
        self.regions.rows()
    }

    /// Number of cells in each row.
    pub fn cols(&self) -> (n: usize)
        requires
            self.wf(),
        ensures
            n == self.spec_cols(),
    {
        self.regions.cols()
    }

    /// The region of the cell `p`.
    pub fn region(&self, p: Position) -> (region: Region)
        requires
            self.wf(),
            p.row < self@.len(),
            p.col < self.spec_cols(),
        ensures
            region == at(self@, p),
    {
        self.regions.get(p.row, p.col)
    }

    /// Number of cells of the region `want`.
    pub fn count(&self, want: Region) -> (n: usize)
        requires
            self.wf(),
        ensures
            n == count_in_rows(self@, want),
    {
        let rows: usize = self.regions.rows();
        let cols: usize = self.regions.cols();
        let total: usize = self.regions.cell_count();
        let ghost all = self@;
        proof {
            lemma_count_rows_bound(all, want, cols as nat);
            assert(all.take(0) =~= Seq::<Seq<Region>>::empty());
        }
        let mut n: usize = 0;
        let mut r: usize = 0;
        while r < rows
            invariant
                self.wf(),
                all == self@,
                rows == all.len(),
                cols == self.spec_cols(),
                r <= rows,
                n == count_in_rows(all.take(r as int), want),
                count_in_rows(all, want) <= total,
            decreases rows - r,
        {
            let ghost row = all[r as int];
            let mut c: usize = 0;
            proof {
                assert(row.take(0) =~= Seq::<Region>::empty());
                assert(all.take(r + 1).drop_last() =~= all.take(r as int));
                lemma_count_rows_prefix(all, want, r + 1);
            }
            while c < cols
                invariant
                    self.wf(),
                    all == self@,
                    rows == all.len(),
                    cols == self.spec_cols(),
                    r < rows,
                    c <= cols,
                    row == all[r as int],
                    row.len() == cols,
                    n == count_in_rows(all.take(r as int), want) + count_in_row(row.take(c as int), want),
                    count_in_rows(all.take(r + 1), want) == count_in_rows(all.take(r as int), want)
                        + count_in_row(row, want),
                    count_in_rows(all.take(r + 1), want) <= total,
                decreases cols - c,
            {
                proof {
                    assert(row.take(c + 1).drop_last() =~= row.take(c as int));
                    lemma_count_row_prefix(row, want, c + 1);
                }
                if self.regions.get(r, c) == want {
                    n += 1;
                }
                c += 1;
            }
            proof {
                assert(row.take(cols as int) =~= row);
            }
            r += 1;
        }
        proof {
            assert(all.take(rows as int) =~= all);
        }
        n
    }
}

/// Sorts the cells of the grid into those on the loop, those outside it and
/// those it encloses.
///
/// The cells from which the edge of the grid can be reached off the loop are
/// found first, by flooding, and are outside. Every other cell off the loop is
/// judged by the ray to it from the western edge: it is inside when the ray
/// crosses the loop an odd number of times. The result is the partition that
/// the count of crossings alone gives. It has as many cells on the loop as the
/// loop has steps, and its three regions have as many cells between them as
/// the grid.
pub fn classify(grid: &Grid, path: &Vec<Position>) -> (part: Partition)
    requires
        grid.wf(),
        is_loop(grid@, path@),
    ensures
        part.wf(),
        part.spec_cols() == grid@.cols(),
        part@ == partition_of(grid@, path@),
        count_in_rows(part@, Region::OnLoop) == loop_length(path@),
        count_in_rows(part@, Region::OnLoop) + count_in_rows(part@, Region::Outside) + count_in_rows(
            part@,
            Region::Inside,
        ) == grid@.rows() * grid@.cols(),
{
    let rows: usize = grid.rows();
    let cols: usize = grid.cols();
    let walls = mark_loop(grid, path);
    let open = flood(grid, &walls, Ghost(path@));
    let mut regions: Table<Region> = Table::filled_like(&walls, Region::Outside);
    let mut r: usize = 0;
    while r < rows
        invariant
            grid.wf(),
            is_loop(grid@, path@),
            rows == grid@.rows(),
            cols == grid@.cols(),
            r <= rows,
            walls.wf(),
            walls.spec_rows() == rows,
            walls.spec_cols() == cols,
            open.wf(),
            open.spec_rows() == rows,
            open.spec_cols() == cols,
            regions.wf(),
            regions.spec_rows() == rows,
            regions.spec_cols() == cols,
            forall|p: Position| grid@.contains(p) ==> #[trigger] at(walls@, p) == path@.contains(p),
            forall|p: Position|
                grid@.contains(p) ==> #[trigger] at(open@, p) == reaches_border(grid@, path@, p),
            forall|p: Position|
                grid@.contains(p) && p.row < r ==> #[trigger] at(regions@, p) == region_of(
                    grid@,
                    path@,
                    p,
                ),
        decreases rows - r,
    {
        let mut odd = false;
        let mut c: usize = 0;
        while c < cols
            invariant
                grid.wf(),
                is_loop(grid@, path@),
                rows == grid@.rows(),
                cols == grid@.cols(),
                r < rows,
                c <= cols,
                walls.wf(),
                walls.spec_rows() == rows,
                walls.spec_cols() == cols,
                open.wf(),
                open.spec_rows() == rows,
                open.spec_cols() == cols,
                regions.wf(),
                regions.spec_rows() == rows,
                regions.spec_cols() == cols,
                forall|p: Position| grid@.contains(p) ==> #[trigger] at(walls@, p) == path@.contains(p),
                forall|p: Position|
                    grid@.contains(p) ==> #[trigger] at(open@, p) == reaches_border(grid@, path@, p),
                forall|p: Position|
                    grid@.contains(p) && (p.row < r || (p.row == r && p.col < c)) ==> #[trigger] at(
                        regions@,
                        p,
                    ) == region_of(grid@, path@, p),
                odd == (arms_left(grid@, path@, Direction::North, r, c as int) % 2 == 1),
            decreases cols - c,
        {
            let p = Position { row: r, col: c };
            let ghost earlier = regions@;
            assert(grid@.contains(p));
            assert(at(walls@, p) == path@.contains(p));
            assert(at(open@, p) == reaches_border(grid@, path@, p));
            let on_loop = walls.get(r, c);
            let region = if on_loop {
                Region::OnLoop
            } else if open.get(r, c) {
                proof {
                    let n = choose|n: nat| reaches_border_within(grid@, path@, p, n);
                    lemma_reaching_border_not_enclosed(grid@, path@, p, n);
                }
                Region::Outside
            } else if odd {
                Region::Inside
            } else {
                Region::Outside
            };
            assert(region == region_of(grid@, path@, p));
            regions.set(r, c, region);
            proof {
                assert forall|q: Position|
                    grid@.contains(q) && (q.row < r || (q.row == r && q.col < c + 1)) implies #[trigger] at(
                    regions@,
                    q,
                ) == region_of(grid@, path@, q) by {
                    if q != p {
                        assert(at(regions@, q) == at(earlier, q));
                    }
                }
                assert(has_arm(grid@, path@, p, Direction::North) == (path@.contains(p) && grid@.links(
                    p,
                    Direction::North,
                )));
            }
            if on_loop && grid.links(p, Direction::North) {
                odd = !odd;
            }
            c += 1;
        }
        r += 1;
    }
    let part = Partition { regions };
    proof {
        let want = partition_of(grid@, path@);
        assert(part@.len() == want.len());
        assert forall|i: int| 0 <= i < want.len() implies #[trigger] part@[i] =~= want[i] by {
            assert forall|j: int| 0 <= j < want[i].len() implies part@[i][j] == want[i][j] by {
                let p = Position { row: i as usize, col: j as usize };
                assert(grid@.contains(p));
                assert(at(part@, p) == region_of(grid@, path@, p));
            }
        }
        assert(part@ =~= want);
        assert forall|i: int, j: int| 0 <= i < part@.len() && 0 <= j < part@[i].len() implies (part@[i][j]
            == Region::OnLoop <==> walls@[i][j] == true) by {
            let p = Position { row: i as usize, col: j as usize };
            assert(grid@.contains(p));
            assert(at(part@, p) == region_of(grid@, path@, p));
            assert(at(walls@, p) == path@.contains(p));
        }
        lemma_count_rows_same(part@, Region::OnLoop, walls@, true);
        lemma_partition_covers_grid(grid@, path@);
    }
    part
}

/// Every cell of a table of regions is on the loop, outside or inside, so the
/// three counts add up to the number of cells in a row.
pub proof fn lemma_row_counts_cover(row: Seq<Region>)
    ensures
        count_in_row(row, Region::OnLoop) + count_in_row(row, Region::Outside) + count_in_row(
            row,
            Region::Inside,
        ) == row.len(),
    decreases row.len(),
{
    if row.len() > 0 {
        lemma_row_counts_cover(row.drop_last());
    }
}

/// In a table of regions with rows of `width` cells the three counts add up to
/// the number of cells.
pub proof fn lemma_counts_cover(rows: Seq<Seq<Region>>, width: nat)
    requires
        forall|r: int| 0 <= r < rows.len() ==> (#[trigger] rows[r]).len() == width,
    ensures
        count_in_rows(rows, Region::OnLoop) + count_in_rows(rows, Region::Outside) + count_in_rows(
            rows,
            Region::Inside,
        ) == rows.len() * width,
    decreases rows.len(),
{
    if rows.len() > 0 {
        lemma_counts_cover(rows.drop_last(), width);
        lemma_row_counts_cover(rows.last());
        assert(rows.len() * width == (rows.len() - 1) * width + width) by (nonlinear_arith);
    } else {
        assert(rows.len() * width == 0) by (nonlinear_arith)
            requires
                rows.len() == 0,
        ;
    }
}

/// The loop, the outside and the inside of a grid have as many cells between
/// them as the grid has.
pub proof fn lemma_partition_covers_grid(m: Maze, path: Seq<Position>)
    ensures
        count_in_rows(partition_of(m, path), Region::OnLoop) + count_in_rows(
            partition_of(m, path),
            Region::Outside,
        ) + count_in_rows(partition_of(m, path), Region::Inside) == m.rows() * m.cols(),
{
    lemma_counts_cover(partition_of(m, path), m.cols());
}

/// Sorting the same grid with the same loop again gives the same partition:
/// two partitions that both sort it are equal.
pub proof fn lemma_classify_again(m: Maze, path: Seq<Position>, first: Partition, second: Partition)
    requires
        first@ == partition_of(m, path),
        second@ == partition_of(m, path),
    ensures
        first@ == second@,
{
}

/// A cell off the loop with no crossing to its west is outside.
pub proof fn lemma_no_crossing_is_outside(m: Maze, path: Seq<Position>, p: Position)
    requires
        !path.contains(p),
        crossings(m, path, p) == 0,
    ensures
        region_of(m, path, p) == Region::Outside,
{
}

/// Wherever both ways of telling give an answer they give the same: a cell
/// from which the edge of the grid can be reached is sorted as outside by the
/// count of crossings too.
pub proof fn lemma_flood_agrees_with_parity(m: Maze, path: Seq<Position>, p: Position)
    requires
        m.wf(),
        is_loop(m, path),
        reaches_border(m, path, p),
    ensures
        region_of(m, path, p) == Region::Outside,
        !is_enclosed(m, path, p),
{
    let n = choose|n: nat| reaches_border_within(m, path, p, n);
    lemma_reaching_border_not_enclosed(m, path, p, n);
}

/// A table in which no cell holds a value holds it zero times.
pub proof fn lemma_count_none<T>(rows: Seq<Seq<T>>, want: T)
    requires
        forall|r: int, c: int| 0 <= r < rows.len() && 0 <= c < rows[r].len() ==> rows[r][c] != want,
    ensures
        count_in_rows(rows, want) == 0,
    decreases rows.len(),
{
    if rows.len() > 0 {
        lemma_count_none(rows.drop_last(), want);
        crate::tally::lemma_count_row_bound(rows.last(), want);
    }
}

} // verus!
