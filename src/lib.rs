//! Exhaustive backtracking search for the six-by-six tower puzzle: every cell
//! takes one tower of the height its table entry asks for, each of the 36
//! (height, color) towers is used once, and no color repeats in a row or a
//! column.

pub mod color;
pub mod display;
pub mod inventory;
pub mod search;
pub mod solve;
pub mod tower;

pub use color::Color;
pub use display::{display_filter, render_board};
pub use inventory::{find_available_tower, initialize_freetowers};
pub use search::{color_is_free, evaluate_cube};
pub use solve::{empty_board_vec, find_solutions};
pub use tower::{Position, Tower, advance_position, back_position};
