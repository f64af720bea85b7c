//! Engine for the turn-based board game Kura Kura: a player places a stone
//! and then rotates a chosen square sub-region of the board by 90 degrees,
//! with stones, stone orientations, and background line markings rotating
//! together.  The engine validates each turn, applies it atomically, and
//! scans the board for wins and stalemates.

pub mod cell;
pub mod game;
pub mod scan;
pub mod types;
