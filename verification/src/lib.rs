//! Incremental maze generation on a square grid.
//!
//! A sample buffer (four samples per cell) classifies each cell as open or
//! closed; a growing-tree traversal then links adjacent open cells one step
//! at a time, and the grid can be rendered as textual markup after any number
//! of steps. Every random choice is injected by the caller as a plain
//! integer, so the whole engine is deterministic and fully verified.

pub mod cell;
pub mod laws;
pub mod maze;
pub mod model;
pub mod render;

pub use cell::Cell;
pub use cell::CellState;
pub use maze::Mazm;
pub use maze::MazeError;
