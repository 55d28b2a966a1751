//! A backgammon rules engine.
//!
//! The engine represents the full board (24 points plus the two bar slots),
//! enumerates the legal moves for a single die, searches for all maximal
//! full-turn move sequences for a dice roll, applies moves (including
//! capture-to-bar semantics), and detects a win.  Dice randomization, move
//! selection and rendering are left to the caller.

pub mod board;
pub mod moves;
pub mod search;
pub mod laws;

pub use board::BoardState;
pub use board::Move;
pub use board::PlayerColor;
pub use board::PointIndex;
pub use board::PointState;
