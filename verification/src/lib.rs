//! A verified engine for a generalized twisty puzzle: an exact
//! permutation-group model over an arbitrary-dimension coordinate space, and
//! a deterministic recursive generator that projects the puzzle's cells onto
//! a 2D character grid.

pub mod axis;
pub mod filters;
pub mod layout;
pub mod prefs;
pub mod puzzle;
