//! A sparse, tile-based simulator for two-state cellular automata in the
//! Conway's-Life family (arbitrary birth/survival neighbor-count rules) on an
//! effectively unbounded grid.
//!
//! Cells are stored in 4x8 bit-packed tiles addressed by signed tile
//! coordinates.  Generations advance by table lookup over 16-bit neighborhood
//! windows rather than per-cell neighbor counting, and only tiles in an active
//! set are recomputed.
mod calc;
mod catalog;
mod coords;
mod rle;
mod rules;
mod storage;
mod universe;
mod tile;

pub use tile::Tile;
pub use tile::TCoord;
pub use rules::RuleTable;
pub use universe::Universe;
pub use universe::CellState;
pub use rle::ParseError;
pub use catalog::Pattern;
pub use catalog::RuleSet;
