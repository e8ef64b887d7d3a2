//! Walks along the pipes from the start, and the facts that make the closed
//! walk a simple cycle of even length.

use crate::maze::{
    lemma_joined_parity, lemma_joined_symmetric, lemma_joined_to_two, lemma_link_count, Maze, Position,
};
use crate::table::{flat_index, lemma_flat_index_bound, lemma_flat_index_injective};
use vstd::prelude::*;
use vstd::set_lib::{lemma_int_range, lemma_len_subset, set_int_range};

verus! {

/// `path` is a walk along the pipes: it begins at the start, leaves it through
/// the first exit, goes from each cell to a cell joined to it, never turns
/// back to the cell it just left, and does not pass through the start again
/// before its last cell.
pub open spec fn is_trail(m: Maze, path: Seq<Position>) -> bool {
    &&& m.exit_count() == 2
    &&& path.len() >= 2
    &&& path[0] == m.start
    &&& m.neighbor(m.start, m.first_exit()) == Some(path[1])
    &&& forall|k: int| 0 <= k < path.len() - 1 ==> m.joined(#[trigger] path[k], path[k + 1])
    &&& forall|k: int| 0 < k < path.len() - 1 ==> #[trigger] path[k] != m.start
    &&& forall|k: int| 0 <= k < path.len() - 2 ==> path[k + 2] != #[trigger] path[k]
}

/// `path` is the loop through the start: a walk along the pipes that ends
/// where it began.
pub open spec fn is_loop(m: Maze, path: Seq<Position>) -> bool {
    is_trail(m, path) && path.last() == m.start
}

/// `path` is a walk that cannot go on: it has not come back to the start, and
/// its last cell is joined to no cell but the one the walk came from.
pub open spec fn is_dead_end(m: Maze, path: Seq<Position>) -> bool {
    &&& is_trail(m, path)
    &&& path.last() != m.start
    &&& forall|q: Position| #[trigger] m.joined(path.last(), q) ==> q == path[path.len() - 2]
}

/// Whether the pipes through the start close into a loop.
pub open spec fn has_loop(m: Maze) -> bool {
    exists|path: Seq<Position>| is_loop(m, path)
}

/// The loop through the start, where there is one.
pub open spec fn loop_of(m: Maze) -> Seq<Position>
    recommends
        has_loop(m),
{
    choose|path: Seq<Position>| is_loop(m, path)
}

/// Number of steps around a loop; the start, which the path names twice,
/// counts once.
pub open spec fn loop_length(path: Seq<Position>) -> nat {
    (path.len() - 1) as nat
}

/// Number of steps from the start to the cell of the loop that is farthest
/// from it along the pipes.
pub open spec fn farthest_distance(path: Seq<Position>) -> nat {
    loop_length(path) / 2
}

/// Every cell of a walk lies in the grid.
pub proof fn lemma_trail_in_grid(m: Maze, path: Seq<Position>, k: int)
    requires
        is_trail(m, path),
        0 <= k < path.len(),
    ensures
        m.contains(path[k]),
{
    if k < path.len() - 1 {
        assert(m.joined(path[k], path[k + 1]));
        lemma_joined_symmetric(m, path[k], path[k + 1]);
    } else {
        assert(m.joined(path[k - 1], path[k]));
        lemma_joined_symmetric(m, path[k - 1], path[k]);
    }
}

/// A walk never visits a cell twice, except that its last cell may be the
/// start again.
pub proof fn lemma_trail_distinct(m: Maze, path: Seq<Position>, i: int, j: int)
    requires
        is_trail(m, path),
        0 <= i < j < path.len(),
        !(i == 0 && j == path.len() - 1),
    ensures
        path[i] != path[j],
    decreases j,
{
    if path[i] == path[j] {
        if i == 0 {
            assert(path[j] != m.start);
        } else {
            let p = path[i];
            assert(path[i] != m.start);
            lemma_link_count(m, p);
            assert(m.joined(path[i - 1], path[i]));
            lemma_joined_symmetric(m, path[i - 1], p);
            assert(m.joined(path[i], path[i + 1]));
            assert(m.joined(path[j - 1], path[j]));
            lemma_joined_symmetric(m, path[j - 1], p);
            assert(path[i - 1 + 2] != path[i - 1]);
            lemma_joined_to_two(m, p, path[i - 1], path[i + 1], path[j - 1]);
            if path[j - 1] == path[i - 1] {
                lemma_trail_distinct(m, path, i - 1, j - 1);
            } else {
                assert(path[j - 1] == path[i + 1]);
                if i + 1 == j {
                } else if i + 1 == j - 1 {
                    assert(path[i + 2] != path[i]);
                } else {
                    lemma_trail_distinct(m, path, i + 1, j - 1);
                }
            }
        }
    }
}

/// A loop comes back to the start through the exit it did not leave by: the
/// cell before its last is not the cell after its first.
pub proof fn lemma_loop_returns_other_side(m: Maze, path: Seq<Position>)
    requires
        is_loop(m, path),
    ensures
        path.len() >= 5,
        path[path.len() - 2] != path[1],
{
    let n = path.len() as int;
    lemma_joined_symmetric(m, path[0], path[1]);
    if n == 2 {
        assert(false);
    }
    if n == 3 {
        assert(path[0int + 2] != path[0int]);
    }
    lemma_trail_parity(m, path, n - 1);
    lemma_trail_distinct(m, path, 1, n - 2);
}

/// Number of steps from the start to the `k`-th cell of a loop, the shorter
/// way round.
pub open spec fn steps_from_start(path: Seq<Position>, k: int) -> int {
    if k <= loop_length(path) - k {
        k
    } else {
        loop_length(path) - k
    }
}

/// No cell of a loop is more steps from the start than the farthest distance,
/// and the cell half way round is exactly that far.
pub proof fn lemma_farthest(m: Maze, path: Seq<Position>, k: int)
    requires
        is_loop(m, path),
        0 <= k <= loop_length(path),
    ensures
        steps_from_start(path, k) <= farthest_distance(path),
        steps_from_start(path, farthest_distance(path) as int) == farthest_distance(path),
{
    lemma_loop_even(m, path);
}

/// Along a walk the sum of row and column changes parity at every step.
pub proof fn lemma_trail_parity(m: Maze, path: Seq<Position>, k: int)
    requires
        is_trail(m, path),
        0 <= k < path.len(),
    ensures
        (path[k].row + path[k].col) % 2 == (path[0].row + path[0].col + k) % 2,
    decreases k,
{
    if k > 0 {
        lemma_trail_parity(m, path, k - 1);
        assert(m.joined(path[k - 1], path[k - 1 + 1]));
        lemma_joined_parity(m, path[k - 1], path[k]);
    }
}

/// A loop has an even number of steps, so the farthest cell is exactly half
/// way round.
pub proof fn lemma_loop_even(m: Maze, path: Seq<Position>)
    requires
        is_loop(m, path),
    ensures
        loop_length(path) % 2 == 0,
        2 * farthest_distance(path) == loop_length(path),
{
    lemma_trail_parity(m, path, path.len() - 1);
}

/// Two walks in one grid agree as far as the shorter one goes.
pub proof fn lemma_trail_unique(m: Maze, a: Seq<Position>, b: Seq<Position>, k: int)
    requires
        is_trail(m, a),
        is_trail(m, b),
        0 <= k < a.len() <= b.len(),
    ensures
        a[k] == b[k],
    decreases k,
{
    if k >= 2 {
        lemma_trail_unique(m, a, b, k - 1);
        lemma_trail_unique(m, a, b, k - 2);
        let c = a[k - 1];
        assert(c != m.start);
        lemma_link_count(m, c);
        assert(m.joined(a[k - 2], a[k - 1]));
        lemma_joined_symmetric(m, a[k - 2], c);
        assert(m.joined(a[k - 1], a[k - 1 + 1]));
        assert(m.joined(b[k - 1], b[k - 1 + 1]));
        assert(a[k - 2 + 2] != a[k - 2]);
        assert(b[k - 2 + 2] != b[k - 2]);
        lemma_joined_to_two(m, c, a[k - 2], a[k], b[k]);
    }
}

/// A grid has at most one loop through its start.
pub proof fn lemma_loop_unique(m: Maze, a: Seq<Position>, b: Seq<Position>)
    requires
        is_loop(m, a),
        is_loop(m, b),
    ensures
        a == b,
{
    if a.len() <= b.len() {
        lemma_trail_unique(m, a, b, a.len() - 1);
        if a.len() < b.len() {
            assert(b[a.len() - 1] != m.start);
        }
        assert forall|k: int| 0 <= k < a.len() implies a[k] == b[k] by {
            lemma_trail_unique(m, a, b, k);
        }
        assert(a =~= b);
    } else {
        lemma_trail_unique(m, b, a, b.len() - 1);
        assert(a[b.len() - 1] != m.start);
    }
}

/// The loop that `loop_of` names is the only loop of the grid.
pub proof fn lemma_loop_of(m: Maze, path: Seq<Position>)
    requires
        is_loop(m, path),
    ensures
        has_loop(m),
        loop_of(m) == path,
{
    lemma_loop_unique(m, loop_of(m), path);
}

/// Where a walk comes to a dead end, the pipes through the start do not close
/// into a loop.
pub proof fn lemma_dead_end_excludes_loop(m: Maze, path: Seq<Position>)
    requires
        is_dead_end(m, path),
    ensures
        !has_loop(m),
{
    if has_loop(m) {
        let l = loop_of(m);
        let n = path.len() as int;
        if l.len() <= path.len() {
            lemma_trail_unique(m, l, path, l.len() - 1);
            if l.len() < path.len() {
                assert(path[l.len() - 1] != m.start);
            }
        } else {
            lemma_trail_unique(m, path, l, n - 1);
            lemma_trail_unique(m, path, l, n - 2);
            assert(m.joined(l[n - 1], l[n - 1 + 1]));
            assert(l[n - 2 + 2] != l[n - 2]);
        }
    }
}

/// A walk comes to a dead end in one way only.
pub proof fn lemma_dead_end_unique(m: Maze, a: Seq<Position>, b: Seq<Position>)
    requires
        is_dead_end(m, a),
        is_dead_end(m, b),
    ensures
        a == b,
{
    lemma_dead_end_longest(m, a, b);
    lemma_dead_end_longest(m, b, a);
    assert forall|k: int| 0 <= k < a.len() implies a[k] == b[k] by {
        lemma_trail_unique(m, a, b, k);
    }
    assert(a =~= b);
}

/// No walk goes on beyond a dead end: every walk is at most as long as the
/// one that ends there.
pub proof fn lemma_dead_end_longest(m: Maze, a: Seq<Position>, b: Seq<Position>)
    requires
        is_dead_end(m, a),
        is_trail(m, b),
    ensures
        b.len() <= a.len(),
{
    if a.len() < b.len() {
        let n = a.len() as int;
        lemma_trail_unique(m, a, b, n - 1);
        lemma_trail_unique(m, a, b, n - 2);
        assert(m.joined(b[n - 1], b[n - 1 + 1]));
        assert(b[n - 2 + 2] != b[n - 2]);
    }
}

/// The cells of a loop lie in the grid, and but for the start, which comes
/// first and last, no two of them are the same.
pub proof fn lemma_loop_cells(m: Maze, path: Seq<Position>)
    requires
        is_loop(m, path),
    ensures
        forall|k: int| 0 <= k < path.len() ==> m.contains(#[trigger] path[k]),
        forall|i: int, j: int| 0 <= i < j < path.len() - 1 ==> path[i] != path[j],
{
    assert forall|k: int| 0 <= k < path.len() implies m.contains(#[trigger] path[k]) by {
        lemma_trail_in_grid(m, path, k);
    }
    assert forall|i: int, j: int| 0 <= i < j < path.len() - 1 implies path[i] != path[j] by {
        lemma_trail_distinct(m, path, i, j);
    }
}

/// A cell is among the first `k + 1` of a sequence when it is among the first
/// `k` or is the one after them.
pub proof fn lemma_take_contains<T>(s: Seq<T>, k: int, x: T)
    requires
        0 <= k < s.len(),
    ensures
        s.take(k + 1).contains(x) <==> s.take(k).contains(x) || s[k] == x,
{
    let shorter = s.take(k);
    let longer = s.take(k + 1);
    if shorter.contains(x) {
        let i = choose|i: int| 0 <= i < shorter.len() && shorter[i] == x;
        assert(longer[i] == x);
    }
    if s[k] == x {
        assert(longer[k] == x);
    }
    if longer.contains(x) {
        let i = choose|i: int| 0 <= i < longer.len() && longer[i] == x;
        if i < k {
            assert(shorter[i] == x);
        }
    }
}

/// A sequence of different cells of a grid is no longer than the grid has
/// cells.
pub proof fn lemma_distinct_cells_bounded(m: Maze, cells: Seq<Position>)
    requires
        forall|k: int| 0 <= k < cells.len() ==> m.contains(#[trigger] cells[k]),
        cells.no_duplicates(),
    ensures
        cells.len() <= m.rows() * m.cols(),
{
    let rows = m.rows() as int;
    let cols = m.cols() as int;
    let places = Seq::new(cells.len(), |k: int| flat_index(cols, cells[k].row as int, cells[k].col as int));
    assert forall|i: int, j: int| 0 <= i < places.len() && 0 <= j < places.len() && i != j implies places[i]
        != places[j] by {
        if places[i] == places[j] {
            assert(m.contains(cells[i]) && m.contains(cells[j]));
            lemma_flat_index_injective(
                cols,
                cells[i].row as int,
                cells[i].col as int,
                cells[j].row as int,
                cells[j].col as int,
            );
        }
    }
    places.unique_seq_to_set();
    assert(rows * cols >= 0) by (nonlinear_arith)
        requires
            rows >= 0,
            cols >= 0,
    ;
    lemma_int_range(0, rows * cols);
    assert forall|x: int| places.to_set().contains(x) implies set_int_range(0, rows * cols).contains(
        x,
    ) by {
        let k = choose|k: int| 0 <= k < places.len() && places[k] == x;
        assert(m.contains(cells[k]));
        lemma_flat_index_bound(rows, cols, cells[k].row as int, cells[k].col as int);
    }
    lemma_len_subset(places.to_set(), set_int_range(0, rows * cols));
}

/// A walk that has not come back to the start has at most as many cells as the
/// grid, and a loop at most as many steps.
pub proof fn lemma_trail_bounded(m: Maze, path: Seq<Position>)
    requires
        is_trail(m, path),
    ensures
        path.last() != m.start ==> path.len() <= m.rows() * m.cols(),
        loop_length(path) <= m.rows() * m.cols(),
{
    let n = path.len() as int;
    let head = path.take(n - 1);
    assert forall|k: int| 0 <= k < head.len() implies m.contains(#[trigger] head[k]) by {
        lemma_trail_in_grid(m, path, k);
    }
    assert forall|i: int, j: int| 0 <= i < head.len() && 0 <= j < head.len() && i != j implies head[i]
        != head[j] by {
        if i < j {
            lemma_trail_distinct(m, path, i, j);
        } else {
            lemma_trail_distinct(m, path, j, i);
        }
    }
    lemma_distinct_cells_bounded(m, head);
    if path.last() != m.start {
        assert forall|k: int| 0 <= k < path.len() implies m.contains(#[trigger] path[k]) by {
            lemma_trail_in_grid(m, path, k);
        }
        assert forall|i: int, j: int| 0 <= i < path.len() && 0 <= j < path.len() && i != j implies path[i]
            != path[j] by {
            if (i == 0 && j == n - 1) || (j == 0 && i == n - 1) {
            } else if i < j {
                lemma_trail_distinct(m, path, i, j);
            } else {
                lemma_trail_distinct(m, path, j, i);
            }
        }
        lemma_distinct_cells_bounded(m, path);
    }
}

} // verus!
