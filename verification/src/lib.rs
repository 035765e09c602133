//! A Sokoban solver: puzzle grids, push-optimal IDA* search over crate
//! pushes, A* path finding for the walks between pushes, deadlock
//! detection, a reader for single puzzles and `.sok` collections, and a
//! random puzzle generator.

pub mod types;
pub mod util;
pub mod ida_star_solver;
pub mod level_reader;
pub mod level_generator;
