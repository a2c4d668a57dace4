//! A parallel inclusive prefix sum over the rows of a multi-dimensional array of 64-bit cells.
//!
//! Rows are cut into blocks of 4096 cells (short rows are grouped, whole rows to a block).
//! Workers that join a task at any time claim blocks through one packed work index: the first
//! worker walks the blocks in row-major order, later ones take fresh rows column by column,
//! and each helps the other order once its own runs out. A block learns the sum of its row up
//! to its start from its predecessors' published descriptors (chained look-back).
//!
//! `task` holds the protocol as a step machine: each step is one atomic action of one worker,
//! and its invariant holds after any step of any worker, so the result is proved for every
//! interleaving. The thread pool that runs the steps is not part of the library.
pub mod array;
pub mod columnwise_chained;
pub mod descriptor;
pub mod grid;
pub mod parallel_rowbased;
pub mod report;
pub mod row_column_chained;
pub mod rowwise_chained;
pub mod scan;
pub mod sequential_rowbased;
pub mod task;
