//! Utilities for small computational puzzles: a generalized shortest-path
//! search over lazily described graphs, dense and sparse grids with their
//! symmetries, integer and coordinate arithmetic, range merging, line-based
//! input parsing, and a small register machine with a stepping shell.

pub mod algorithm;
pub mod bits;
pub mod coords;
pub mod grid;
pub mod infinite_grid;
pub mod iter;
pub mod math;
pub mod range;
pub mod read;
pub mod read2;
pub mod vm_debugger;
pub mod vm_display;
pub mod vm_shell;
