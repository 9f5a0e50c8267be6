//! Rules engine and adversarial search for a deduction board game played on a
//! fixed graph of rooms.

pub mod text;
pub mod room;
pub mod wing;
pub mod player;
pub mod simple_turn;
pub mod rule_helper;
pub mod distance;
pub mod board;
pub mod common_game_state;
pub mod mutable_game_state;
pub mod cancellation;
pub mod tree_search;
pub mod notation;
pub mod history;
