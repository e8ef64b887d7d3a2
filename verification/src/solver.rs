//! From the text of a grid to the two numbers asked of it: how far the
//! farthest cell of the loop is from the start, and how many cells the loop
//! encloses.

use crate::grid::{Grid, PipeError};
use crate::maze::Position;
use crate::parse::{
    is_grid_text, is_parse_fault, lemma_parse_fault_excludes_grid, lemma_parse_fault_unique, maze_of,
};
use crate::region::{classify, partition_of, Region};
use crate::tally::count_in_rows;
use crate::tracer::{farthest_steps, trace_loop};
use crate::trail::{
    farthest_distance, has_loop, is_dead_end, lemma_dead_end_excludes_loop, lemma_dead_end_unique,
    loop_of,
};
use vstd::prelude::*;

verus! {

/// The two numbers that a grid with a loop gives.
#[derive(Clone, Copy, Debug, PartialEq, Eq, Structural)]
pub struct Answer {
    /// Steps along the loop from the start to the cell farthest from it.
    pub farthest: usize,
    /// Cells enclosed by the loop.
    pub enclosed: usize,
}

/// Whether a text is a grid whose pipes close into a loop through the start.
pub open spec fn has_answer(text: Seq<char>) -> bool {
    is_grid_text(text) && has_loop(maze_of(text))
}

/// Steps from the start to the farthest cell of the loop of the grid that a
/// text describes.
pub open spec fn farthest_of(text: Seq<char>) -> nat {
    farthest_distance(loop_of(maze_of(text)))
}

/// Number of cells that the loop of the grid that a text describes encloses.
pub open spec fn enclosed_of(text: Seq<char>) -> nat {
    count_in_rows(partition_of(maze_of(text), loop_of(maze_of(text))), Region::Inside)
}

/// Whether `e` is the fault for which a text has no answer: the fault for
/// which it is not a grid, or else the fault of its start or of the walk from
/// it.
pub open spec fn is_fault(text: Seq<char>, e: PipeError) -> bool {
    match e {
        PipeError::AmbiguousStart { at, exits } => {
            &&& is_grid_text(text)
            &&& at == maze_of(text).start
            &&& exits == maze_of(text).exit_count()
            &&& exits != 2
        },
        PipeError::BrokenLoop { at } => {
            &&& is_grid_text(text)
            &&& maze_of(text).exit_count() == 2
            &&& exists|trail: Seq<Position>| is_dead_end(maze_of(text), trail) && trail.last() == at
        },
        _ => is_parse_fault(text, e),
    }
}

/// A text that has a fault has no answer.
pub proof fn lemma_fault_excludes_answer(text: Seq<char>, e: PipeError)
    requires
        is_fault(text, e),
    ensures
        !has_answer(text),
{
    match e {
        PipeError::AmbiguousStart { at, exits } => {},
        PipeError::BrokenLoop { at } => {
            let trail = choose|trail: Seq<Position>|
                is_dead_end(maze_of(text), trail) && trail.last() == at;
            lemma_dead_end_excludes_loop(maze_of(text), trail);
        },
        _ => {
            lemma_parse_fault_excludes_grid(text, e);
        },
    }
}

/// A text has at most one fault, so the fault that is reported for it is told
/// by the text alone.
pub proof fn lemma_fault_unique(text: Seq<char>, a: PipeError, b: PipeError)
    requires
        is_fault(text, a),
        is_fault(text, b),
    ensures
        a == b,
{
    let m = maze_of(text);
    let a_of_grid = a is AmbiguousStart || a is BrokenLoop;
    let b_of_grid = b is AmbiguousStart || b is BrokenLoop;
    if !a_of_grid && !b_of_grid {
        lemma_parse_fault_unique(text, a, b);
    } else if !a_of_grid {
        lemma_parse_fault_excludes_grid(text, a);
    } else if !b_of_grid {
        lemma_parse_fault_excludes_grid(text, b);
    } else {
        match (a, b) {
            (PipeError::BrokenLoop { at: p }, PipeError::BrokenLoop { at: q }) => {
                let first = choose|trail: Seq<Position>| is_dead_end(m, trail) && trail.last() == p;
                let second = choose|trail: Seq<Position>| is_dead_end(m, trail) && trail.last() == q;
                lemma_dead_end_unique(m, first, second);
            },
            _ => {},
        }
    }
}

/// Reads a grid, traces its loop and counts the cells it encloses.
///
/// Succeeds exactly when the text is a grid whose pipes close into a loop, and
/// then returns both numbers. Otherwise it reports the first fault found, and
/// nothing is counted.
pub fn solve(input: &str) -> (r: Result<Answer, PipeError>)
    ensures
        r is Ok <==> has_answer(input@),
        match r {
            Ok(answer) => answer.farthest == farthest_of(input@) && answer.enclosed == enclosed_of(
                input@,
            ),
            Err(e) => is_fault(input@, e),
        },
{
    let grid = match Grid::parse(input) {
        Ok(grid) => grid,
        Err(e) => {
            return Err(e);
        },
    };
    let path = match trace_loop(&grid) {
        Ok(path) => path,
        Err(e) => {
            return Err(e);
        },
    };
    let farthest = farthest_steps(&path);
    let part = classify(&grid, &path);
    let enclosed = part.count(Region::Inside);
    Ok(Answer { farthest, enclosed })
}

/// Steps along the loop from the start to the cell farthest from it, or `None`
/// where the text is not a grid with a loop.
pub fn part_one(input: &str) -> (r: Option<usize>)
    ensures
        r is Some <==> has_answer(input@),
        r is Some ==> r->0 == farthest_of(input@),
{
    let grid = match Grid::parse(input) {
        Ok(grid) => grid,
        Err(_) => {
            return None;
        },
    };
    match trace_loop(&grid) {
        Ok(path) => Some(farthest_steps(&path)),
        Err(_) => None,
    }
}

/// Number of cells enclosed by the loop, or `None` where the text is not a grid
/// with a loop.
pub fn part_two(input: &str) -> (r: Option<usize>)
    ensures
        r is Some <==> has_answer(input@),
        r is Some ==> r->0 == enclosed_of(input@),
{
    match solve(input) {
        Ok(answer) => Some(answer.enclosed),
        Err(_) => None,
    }
}

} // verus!
