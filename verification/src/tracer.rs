//! Walking the loop: from the start through its first exit, from tile to tile
//! by their shapes, until the walk is back at the start.

use crate::grid::{Grid, PipeError};
use crate::maze::{lemma_neighbor_back, Maze, Position};
use crate::tile::{Direction, Tile};
use crate::trail::{
    farthest_distance, has_loop, is_dead_end, is_loop, is_trail, lemma_dead_end_excludes_loop,
    lemma_loop_even, lemma_loop_of, lemma_trail_bounded, loop_length, loop_of,
};
use vstd::prelude::*;

verus! {

/// The arm of a connector shape that is not `back`.
pub open spec fn other_arm(tile: Tile, back: Direction) -> Direction {
    match tile.spec_connections() {
        Some((a, b)) => if a == back {
            b
        } else {
            a
        },
        None => back,
    }
}

/// Where a walk that has come to `cur` heading in direction `heading` goes
/// next: through the other arm of the tile at `cur` to the cell on that side,
/// if there is one and it has an arm pointing back. The result names the next
/// cell and the new heading.
pub open spec fn spec_advance(m: Maze, cur: Position, heading: Direction) -> Option<
    (Position, Direction),
> {
    let out = other_arm(m.tile(cur), heading.spec_opposite());
    match m.neighbor(cur, out) {
        Some(q) => if m.links(q, out.spec_opposite()) {
            Some((q, out))
        } else {
            None
        },
        None => None,
    }
}

/// Number of exits of the start, and the first of them in the order north,
/// south, west, east.
pub fn find_exits(grid: &Grid) -> (r: (usize, Direction))
    requires
        grid.wf(),
    ensures
        r.0 == grid@.exit_count(),
        r.1 == grid@.first_exit(),
{
    let north = grid.is_exit(Direction::North);
    let south = grid.is_exit(Direction::South);
    let west = grid.is_exit(Direction::West);
    let east = grid.is_exit(Direction::East);
    let mut exits: usize = 0;
    if north {
        exits += 1;
    }
    if south {
        exits += 1;
    }
    if west {
        exits += 1;
    }
    if east {
        exits += 1;
    }
    let first = if north {
        Direction::North
    } else if south {
        Direction::South
    } else if west {
        Direction::West
    } else {
        Direction::East
    };
    (exits, first)
}

/// One step of the walk from a cell other than the start.
pub fn advance(grid: &Grid, cur: Position, heading: Direction) -> (next: Option<(Position, Direction)>)
    requires
        grid.wf(),
        grid@.contains(cur),
        cur != grid@.start,
        grid@.tile(cur).spec_connects(heading.spec_opposite()),
    ensures
        next == spec_advance(grid@, cur, heading),
        match next {
            Some((q, out)) => out != heading.spec_opposite() && grid@.joined_along(cur, out, q),
            None => forall|q: Position, d: Direction|
                d != heading.spec_opposite() ==> !#[trigger] grid@.joined_along(cur, d, q),
        },
{
    let back = heading.opposite();
    let out = match grid.tile(cur).connections() {
        Some((a, b)) => if a == back {
            b
        } else {
            a
        },
        None => back,
    };
    match grid.neighbor(cur, out) {
        Some(q) => if grid.links(q, out.opposite()) {
            Some((q, out))
        } else {
            None
        },
        None => None,
    }
}

/// Traces the loop through the start.
///
/// Succeeds exactly when the pipes through the start close into a loop, and
/// then returns that loop: the cells in the order of the walk, the start first
/// and last. Fails with `AmbiguousStart` when the start has not exactly two
/// exits, and with `BrokenLoop` at the last cell of the walk when the walk
/// comes to a dead end. A loop has an even number of steps, and no more steps
/// than the grid has cells.
pub fn trace_loop(grid: &Grid) -> (r: Result<Vec<Position>, PipeError>)
    requires
        grid.wf(),
    ensures
        r is Ok <==> has_loop(grid@),
        match r {
            Ok(path) => {
                &&& is_loop(grid@, path@)
                &&& path@ == loop_of(grid@)
                &&& loop_length(path@) % 2 == 0
                &&& loop_length(path@) <= grid@.rows() * grid@.cols()
            },
            Err(PipeError::AmbiguousStart { at, exits }) => {
                &&& at == grid@.start
                &&& exits == grid@.exit_count()
                &&& exits != 2
            },
            Err(PipeError::BrokenLoop { at }) => {
                &&& grid@.exit_count() == 2
                &&& exists|trail: Seq<Position>| is_dead_end(grid@, trail) && trail.last() == at
            },
            Err(_) => false,
        },
{
    let start = grid.start();
    let (exits, first) = find_exits(grid);
    if exits != 2 {
        return Err(PipeError::AmbiguousStart { at: start, exits });
    }
    let second = grid.neighbor(start, first).unwrap();
    let mut cur = second;
    let mut heading = first;
    let mut path: Vec<Position> = Vec::new();
    path.push(start);
    path.push(second);
    proof {
        lemma_neighbor_back(grid@, start, first, second);
        assert(grid@.joined_along(start, first, second));
        assert(is_trail(grid@, path@));
        lemma_trail_bounded(grid@, path@);
    }
    while cur != start
        invariant
            grid.wf(),
            start == grid@.start,
            is_trail(grid@, path@),
            cur == path@.last(),
            grid@.neighbor(path@[path@.len() - 2], heading) == Some(cur),
            grid@.links(cur, heading.spec_opposite()),
            cur != start ==> path@.len() <= grid@.rows() * grid@.cols(),
            path@.len() <= grid@.rows() * grid@.cols() + 1,
        decreases grid@.rows() * grid@.cols() + 1 - path@.len(),
    {
        let ghost before = path@;
        let ghost prev = before[before.len() - 2];
        proof {
            lemma_neighbor_back(grid@, prev, heading, cur);
        }
        match advance(grid, cur, heading) {
            Some((q, out)) => {
                path.push(q);
                proof {
                    let after = path@;
                    lemma_neighbor_back(grid@, cur, out, q);
                    assert(q != prev);
                    assert forall|k: int| 0 <= k < after.len() - 1 implies grid@.joined(
                        #[trigger] after[k],
                        after[k + 1],
                    ) by {
                        if k < before.len() - 1 {
                            assert(grid@.joined(before[k], before[k + 1]));
                        }
                    }
                    assert forall|k: int| 0 < k < after.len() - 1 implies #[trigger] after[k]
                        != grid@.start by {
                        if k < before.len() - 1 {
                            assert(before[k] != grid@.start);
                        }
                    }
                    assert forall|k: int| 0 <= k < after.len() - 2 implies after[k + 2]
                        != #[trigger] after[k] by {
                        if k < before.len() - 2 {
                            assert(before[k + 2] != before[k]);
                        }
                    }
                    assert(is_trail(grid@, after));
                    lemma_trail_bounded(grid@, after);
                }
                cur = q;
                heading = out;
            },
            None => {
                proof {
                    assert forall|q: Position| #[trigger] grid@.joined(cur, q) implies q == prev by {
                        let back = heading.spec_opposite();
                        if grid@.joined_along(cur, back, q) {
                        } else {
                            assert(!grid@.joined_along(cur, Direction::North, q) || back
                                == Direction::North);
                            assert(!grid@.joined_along(cur, Direction::South, q) || back
                                == Direction::South);
                            assert(!grid@.joined_along(cur, Direction::West, q) || back
                                == Direction::West);
                            assert(!grid@.joined_along(cur, Direction::East, q) || back
                                == Direction::East);
                        }
                    }
                    assert(is_dead_end(grid@, before));
                    lemma_dead_end_excludes_loop(grid@, before);
                }
                return Err(PipeError::BrokenLoop { at: cur });
            },
        }
    }
    proof {
        lemma_loop_of(grid@, path@);
        lemma_loop_even(grid@, path@);
        lemma_trail_bounded(grid@, path@);
    }
    Ok(path)
}

/// Number of steps from the start to the farthest cell of a loop: half the
/// number of steps around it.
pub fn farthest_steps(path: &Vec<Position>) -> (d: usize)
    requires
        path@.len() >= 1,
    ensures
        d == farthest_distance(path@),
{
    (path.len() - 1) / 2
}

} // verus!
