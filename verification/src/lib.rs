//! A grid-puzzle engine and exhaustive solver for a box-pushing game.
//!
//! The engine models a rectangular board of cells on which a single player
//! walks and pushes boxes onto target cells.  All movement is expressed by
//! one primitive: a three-cell `shift` whose validity is decided by a
//! volume-conservation check.  On top of it sit a flood-fill reachability
//! explorer, a corner deadlock detector, and a depth-first solver that
//! deduplicates states by canonical snapshots.  A second, self-contained
//! board engine with its own cell alphabet and an explicit move table
//! lives in `level`.

pub mod engine;
pub mod level;
pub mod solver;
