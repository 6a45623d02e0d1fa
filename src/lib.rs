//! A generalized N×N tic-tac-toe ("tag"): a player wins by holding a
//! transversal, one cell in every row with all columns distinct.
//!
//! - `space`, `board`: pieces, coordinates and the board with its rules.
//! - `order`, `canon`, `scrambled_board`: the row order and the
//!   canonicalization that folds symmetric positions together, keeping
//!   track of where every cell came from.
//! - `symmetry`, `laws`: what canonicalization preserves.
//! - `move_value`, `cache`: evaluations, analyses and the store the engines
//!   remember them in.
//! - `ai_serial`, `ai_lazy`, `ai_parallel`, `ai_ground_up`: the engines.
//! - `game`, `human`, `user_input`, `paths`: turn rules, players, typed
//!   moves and strategy file names.

pub mod space;
pub mod board;
pub mod order;
pub mod canon;
pub mod scrambled_board;
pub mod symmetry;
pub mod laws;
pub mod move_value;
pub mod cache;
mod random;
pub mod ai_serial;
pub mod ai_lazy;
pub mod ai_parallel;
pub mod ai_ground_up;
pub mod ai_random;
pub mod game;
pub mod human;
pub mod user_input;
pub mod paths;

pub use board::Board;
pub use scrambled_board::ScrambledBoard;
