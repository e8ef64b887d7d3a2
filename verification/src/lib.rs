//! Tracing the single closed loop of a pipe maze and counting the cells it
//! encloses.

pub mod enclosure;
pub mod grid;
pub mod maze;
pub mod parse;
pub mod region;
pub mod solver;
pub mod table;
pub mod tally;
pub mod tile;
pub mod tracer;
pub mod trail;

pub use grid::{Grid, PipeError};
pub use maze::Position;
pub use region::{classify, flood_outside, Partition, Region};
pub use solver::{part_one, part_two, solve, Answer};
pub use tile::{Direction, Tile};
pub use tracer::trace_loop;
