//! What it means for a cell to be enclosed by the loop, told two ways, and the
//! proof that the two never disagree.
//!
//! The first way counts, in the row of the cell and to its west, the cells of
//! the loop that have an arm to the north: the cell is inside when that count
//! is odd. The second way asks whether the cell can be reached from the edge
//! of the grid without stepping on the loop: if it can, it is outside.

use crate::maze::{lemma_joined_symmetric, lemma_link_count, Maze, Position};
use crate::tile::Direction;
use crate::trail::{is_loop, lemma_loop_returns_other_side};
use vstd::prelude::*;

verus! {

/// Whether `p` is a cell of the loop with an arm in direction `d`.
pub open spec fn has_arm(m: Maze, path: Seq<Position>, p: Position, d: Direction) -> bool {
    path.contains(p) && m.links(p, d)
}

/// Number of cells of the loop in row `row`, in columns before `col`, that have
/// an arm in direction `d`.
pub open spec fn arms_left(m: Maze, path: Seq<Position>, d: Direction, row: usize, col: int) -> nat
    decreases col,
{
    if col <= 0 {
        0
    } else {
        arms_left(m, path, d, row, col - 1) + if has_arm(
            m,
            path,
            Position { row, col: (col - 1) as usize },
            d,
        ) {
            1nat
        } else {
            0nat
        }
    }
}

/// Number of times a ray from the western edge of the grid to the cell `p`,
/// along its row, crosses the loop: the cells of the loop west of `p` that
/// have an arm to the north.
pub open spec fn crossings(m: Maze, path: Seq<Position>, p: Position) -> nat {
    arms_left(m, path, Direction::North, p.row, p.col as int)
}

/// Whether the cell `p` is off the loop and the ray to it crosses the loop an
/// odd number of times.
pub open spec fn is_enclosed(m: Maze, path: Seq<Position>, p: Position) -> bool {
    m.contains(p) && !path.contains(p) && crossings(m, path, p) % 2 == 1
}

/// Whether the edge of the grid can be reached from `p` in at most `n` steps,
/// each to a neighbouring cell, without ever standing on the loop.
pub open spec fn reaches_border_within(m: Maze, path: Seq<Position>, p: Position, n: nat) -> bool
    decreases n,
{
    &&& m.contains(p)
    &&& !path.contains(p)
    &&& (m.on_border(p) || (n > 0 && ({
        ||| (m.neighbor(p, Direction::North) is Some && reaches_border_within(
            m,
            path,
            m.neighbor(p, Direction::North)->0,
            (n - 1) as nat,
        ))
        ||| (m.neighbor(p, Direction::South) is Some && reaches_border_within(
            m,
            path,
            m.neighbor(p, Direction::South)->0,
            (n - 1) as nat,
        ))
        ||| (m.neighbor(p, Direction::West) is Some && reaches_border_within(
            m,
            path,
            m.neighbor(p, Direction::West)->0,
            (n - 1) as nat,
        ))
        ||| (m.neighbor(p, Direction::East) is Some && reaches_border_within(
            m,
            path,
            m.neighbor(p, Direction::East)->0,
            (n - 1) as nat,
        ))
    })))
}

/// Whether the edge of the grid can be reached from `p` without stepping on
/// the loop.
pub open spec fn reaches_border(m: Maze, path: Seq<Position>, p: Position) -> bool {
    exists|n: nat| reaches_border_within(m, path, p, n)
}

/// Every cell of a loop has exactly two arms and is joined to two different
/// cells of the loop, which the lemma returns.
pub proof fn lemma_loop_neighbours(m: Maze, path: Seq<Position>, p: Position) -> (r: (
    Position,
    Position,
))
    requires
        is_loop(m, path),
        path.contains(p),
    ensures
        r.0 != r.1,
        path.contains(r.0),
        path.contains(r.1),
        m.joined(p, r.0),
        m.joined(p, r.1),
        m.link_count(p) == 2,
{
    let n = path.len() as int;
    let k0 = choose|k: int| 0 <= k < path.len() && path[k] == p;
    let k = if k0 == n - 1 {
        0
    } else {
        k0
    };
    assert(path[k] == p);
    lemma_loop_returns_other_side(m, path);
    lemma_link_count(m, p);
    if k == 0 {
        assert(m.joined(path[0int], path[0int + 1]));
        assert(m.joined(path[n - 2], path[n - 2 + 1]));
        lemma_joined_symmetric(m, path[n - 2], p);
        (path[1], path[n - 2])
    } else {
        assert(path[k] != m.start);
        assert(m.joined(path[k - 1], path[k - 1 + 1]));
        lemma_joined_symmetric(m, path[k - 1], p);
        assert(m.joined(path[k], path[k + 1]));
        assert(path[k - 1 + 2] != path[k - 1]);
        (path[k - 1], path[k + 1])
    }
}

/// An arm of a loop cell always meets an arm of another loop cell: the cell on
/// that side exists, lies on the loop and has an arm pointing back.
pub proof fn lemma_arm_is_met(m: Maze, path: Seq<Position>, p: Position, d: Direction)
    requires
        is_loop(m, path),
        has_arm(m, path, p, d),
    ensures
        m.neighbor(p, d) is Some,
        has_arm(m, path, m.neighbor(p, d)->0, d.spec_opposite()),
{
    let (x, y) = lemma_loop_neighbours(m, path, p);
    assert(m.joined_along(p, d, x) || m.joined_along(p, d, y));
}

/// In any row, the loop cells west of a column have between them an even
/// number of arms to the north and south, unless a pipe runs east out of the
/// last of them, and then the number is odd.
pub proof fn lemma_row_balance(m: Maze, path: Seq<Position>, row: usize, col: int)
    requires
        m.wf(),
        is_loop(m, path),
        row < m.rows(),
        0 <= col <= m.cols(),
    ensures
        (arms_left(m, path, Direction::North, row, col) + arms_left(
            m,
            path,
            Direction::South,
            row,
            col,
        )) % 2 == (if col > 0 && has_arm(
            m,
            path,
            Position { row, col: (col - 1) as usize },
            Direction::East,
        ) {
            1int
        } else {
            0int
        }),
    decreases col,
{
    if col > 0 {
        lemma_row_balance(m, path, row, col - 1);
        let x = Position { row, col: (col - 1) as usize };
        assert(m.contains(x));
        if col > 1 {
            let w = Position { row, col: (col - 2) as usize };
            assert(m.neighbor(x, Direction::West) == Some(w));
            assert(m.neighbor(w, Direction::East) == Some(x));
            if has_arm(m, path, w, Direction::East) {
                lemma_arm_is_met(m, path, w, Direction::East);
            }
            if has_arm(m, path, x, Direction::West) {
                lemma_arm_is_met(m, path, x, Direction::West);
            }
            assert(has_arm(m, path, w, Direction::East) == has_arm(m, path, x, Direction::West));
        } else {
            if has_arm(m, path, x, Direction::West) {
                lemma_arm_is_met(m, path, x, Direction::West);
            }
            assert(!has_arm(m, path, x, Direction::West));
        }
        if path.contains(x) {
            let _ = lemma_loop_neighbours(m, path, x);
            assert(m.link_count(x) == 2);
        }
    }
}

/// The arms that the loop cells of one row have to the south are met, column
/// by column, by arms to the north in the row below.
pub proof fn lemma_rows_match(m: Maze, path: Seq<Position>, row: usize, col: int)
    requires
        m.wf(),
        is_loop(m, path),
        row + 1 < m.rows(),
        0 <= col <= m.cols(),
    ensures
        arms_left(m, path, Direction::South, row, col) == arms_left(
            m,
            path,
            Direction::North,
            (row + 1) as usize,
            col,
        ),
    decreases col,
{
    if col > 0 {
        lemma_rows_match(m, path, row, col - 1);
        let upper = Position { row, col: (col - 1) as usize };
        let lower = Position { row: (row + 1) as usize, col: (col - 1) as usize };
        assert(m.neighbor(upper, Direction::South) == Some(lower));
        assert(m.neighbor(lower, Direction::North) == Some(upper));
        if has_arm(m, path, upper, Direction::South) {
            lemma_arm_is_met(m, path, upper, Direction::South);
        }
        if has_arm(m, path, lower, Direction::North) {
            lemma_arm_is_met(m, path, lower, Direction::North);
        }
    }
}

/// No loop cell of the top row has an arm to the north, and none of the
/// bottom row has one to the south.
pub proof fn lemma_edge_rows(m: Maze, path: Seq<Position>, col: int)
    requires
        m.wf(),
        is_loop(m, path),
        0 <= col <= m.cols(),
    ensures
        arms_left(m, path, Direction::North, 0, col) == 0,
        arms_left(m, path, Direction::South, (m.rows() - 1) as usize, col) == 0,
    decreases col,
{
    if col > 0 {
        lemma_edge_rows(m, path, col - 1);
        let top = Position { row: 0, col: (col - 1) as usize };
        let bottom = Position { row: (m.rows() - 1) as usize, col: (col - 1) as usize };
        if has_arm(m, path, top, Direction::North) {
            lemma_arm_is_met(m, path, top, Direction::North);
        }
        if has_arm(m, path, bottom, Direction::South) {
            lemma_arm_is_met(m, path, bottom, Direction::South);
        }
    }
}

/// Over the whole width of any row the loop has an even number of arms to the
/// north.
pub proof fn lemma_row_total_even(m: Maze, path: Seq<Position>, row: usize)
    requires
        m.wf(),
        is_loop(m, path),
        row < m.rows(),
    ensures
        arms_left(m, path, Direction::North, row, m.cols() as int) % 2 == 0,
    decreases row,
{
    let cols = m.cols() as int;
    if row == 0 {
        lemma_edge_rows(m, path, cols);
    } else {
        let above = (row - 1) as usize;
        lemma_row_total_even(m, path, above);
        lemma_row_balance(m, path, above, cols);
        lemma_rows_match(m, path, above, cols);
        let last = Position { row: above, col: (cols - 1) as usize };
        if has_arm(m, path, last, Direction::East) {
            lemma_arm_is_met(m, path, last, Direction::East);
        }
    }
}

/// A cell on the edge of the grid that is not on the loop is not enclosed.
pub proof fn lemma_border_not_enclosed(m: Maze, path: Seq<Position>, p: Position)
    requires
        m.wf(),
        is_loop(m, path),
        m.on_border(p),
        !path.contains(p),
    ensures
        crossings(m, path, p) % 2 == 0,
{
    let cols = m.cols() as int;
    if p.row == 0 {
        lemma_edge_rows(m, path, p.col as int);
    } else if p.col == 0 {
    } else if p.row + 1 == m.rows() {
        lemma_edge_rows(m, path, p.col as int);
        lemma_row_balance(m, path, p.row, p.col as int);
        let w = Position { row: p.row, col: (p.col - 1) as usize };
        if has_arm(m, path, w, Direction::East) {
            lemma_arm_is_met(m, path, w, Direction::East);
        }
    } else {
        lemma_row_total_even(m, path, p.row);
        assert(p.col + 1 == cols);
        assert(!has_arm(m, path, Position { row: p.row, col: (cols - 1) as usize }, Direction::North));
    }
}

/// Two neighbouring cells that are both off the loop are on the same side of
/// it: the rays to them cross the loop equally often, up to parity.
pub proof fn lemma_neighbours_same_side(
    m: Maze,
    path: Seq<Position>,
    p: Position,
    d: Direction,
    q: Position,
)
    requires
        m.wf(),
        is_loop(m, path),
        m.neighbor(p, d) == Some(q),
        !path.contains(p),
        !path.contains(q),
    ensures
        crossings(m, path, p) % 2 == crossings(m, path, q) % 2,
{
    match d {
        Direction::North => {
            lemma_below_same_side(m, path, q, p);
        },
        Direction::South => {
            lemma_below_same_side(m, path, p, q);
        },
        Direction::West => {
            assert(!has_arm(m, path, Position { row: p.row, col: (p.col - 1) as usize }, Direction::North));
        },
        Direction::East => {
            assert(!has_arm(m, path, Position { row: q.row, col: (q.col - 1) as usize }, Direction::North));
        },
    }
}

/// A cell off the loop and the cell below it, whether that one is on the loop
/// or not, are reached by rays that cross the loop equally often, up to
/// parity.
pub proof fn lemma_below_same_side(m: Maze, path: Seq<Position>, upper: Position, lower: Position)
    requires
        m.wf(),
        is_loop(m, path),
        m.neighbor(upper, Direction::South) == Some(lower),
        !path.contains(upper),
    ensures
        crossings(m, path, upper) % 2 == crossings(m, path, lower) % 2,
{
    let row = upper.row;
    let col = upper.col as int;
    let above = arms_left(m, path, Direction::North, row, col);
    let between = arms_left(m, path, Direction::South, row, col);
    let below = arms_left(m, path, Direction::North, (row + 1) as usize, col);
    assert(lower == Position { row: (row + 1) as usize, col: upper.col });
    assert(m.contains(upper));
    assert((above + between) % 2 == 0) by {
        lemma_row_balance(m, path, row, col);
        if col > 0 {
            let w = Position { row, col: (col - 1) as usize };
            if has_arm(m, path, w, Direction::East) {
                lemma_arm_is_met(m, path, w, Direction::East);
                assert(m.neighbor(w, Direction::East) == Some(upper));
            }
        }
    }
    assert(between == below) by {
        lemma_rows_match(m, path, row, col);
    }
    assert(crossings(m, path, upper) == above);
    assert(crossings(m, path, lower) == below);
    lemma_even_sum(above, below);
}

/// Two numbers with an even sum are both even or both odd.
pub proof fn lemma_even_sum(a: nat, b: nat)
    requires
        (a + b) % 2 == 0,
    ensures
        a % 2 == b % 2,
{
}

/// Whether the edge of the grid can be reached within `n` steps from the cell
/// next to `p` in direction `d`.
pub open spec fn reaches_border_through(
    m: Maze,
    path: Seq<Position>,
    p: Position,
    d: Direction,
    n: nat,
) -> bool {
    m.neighbor(p, d) is Some && reaches_border_within(m, path, m.neighbor(p, d)->0, n)
}

/// A cell reaches the edge within `n` steps when it lies on the edge or one of
/// its neighbours reaches the edge within one step fewer.
pub proof fn lemma_reaches_border_unfold(m: Maze, path: Seq<Position>, p: Position, n: nat)
    ensures
        reaches_border_within(m, path, p, n) <==> m.contains(p) && !path.contains(p) && (m.on_border(
            p,
        ) || (n > 0 && (reaches_border_through(m, path, p, Direction::North, (n - 1) as nat)
            || reaches_border_through(m, path, p, Direction::South, (n - 1) as nat)
            || reaches_border_through(m, path, p, Direction::West, (n - 1) as nat)
            || reaches_border_through(m, path, p, Direction::East, (n - 1) as nat)))),
{
}

/// A cell from which the edge of the grid can be reached without stepping on
/// the loop is not enclosed: the ray to it crosses the loop an even number of
/// times.
pub proof fn lemma_reaching_border_not_enclosed(m: Maze, path: Seq<Position>, p: Position, n: nat)
    requires
        m.wf(),
        is_loop(m, path),
        reaches_border_within(m, path, p, n),
    ensures
        crossings(m, path, p) % 2 == 0,
        !is_enclosed(m, path, p),
    decreases n,
{
    lemma_reaches_border_unfold(m, path, p, n);
    if m.on_border(p) {
        lemma_border_not_enclosed(m, path, p);
    } else {
        let d = if reaches_border_through(m, path, p, Direction::North, (n - 1) as nat) {
            Direction::North
        } else if reaches_border_through(m, path, p, Direction::South, (n - 1) as nat) {
            Direction::South
        } else if reaches_border_through(m, path, p, Direction::West, (n - 1) as nat) {
            Direction::West
        } else {
            Direction::East
        };
        assert(reaches_border_through(m, path, p, d, (n - 1) as nat));
        let q = m.neighbor(p, d)->0;
        lemma_reaches_border_unfold(m, path, q, (n - 1) as nat);
        lemma_reaching_border_not_enclosed(m, path, q, (n - 1) as nat);
        lemma_neighbours_same_side(m, path, p, d, q);
    }
}

} // verus!
