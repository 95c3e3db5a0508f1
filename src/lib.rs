//! A water-sort puzzle: tubes holding stacks of coloured units, the pour
//! rules between them, and a best-first search for a sorting sequence.
pub mod error;
pub mod game;
pub mod palette;
pub mod playback;
pub mod solver;
