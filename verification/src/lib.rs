//! Minesweeper on a rectangular field: hidden bombs, the cells uncovered so
//! far, and the cascade that uncovers a whole region of cells without a bomb
//! on or around them at once.
//!
//! [`board`] is the mathematical model of a minefield and of the cascade,
//! [`play`] the model of a game in progress with the laws of clicking,
//! [`field`] the executable field, and [`random`] the source of its bombs.

pub mod board;
pub mod field;
pub mod play;
pub mod random;

pub use field::{Field, FieldError, Size};
