//! A rules engine for the board game Go (Weiqi/Baduk): board state,
//! stone-group connectivity with per-group liberty accounting, capture
//! resolution, and turn sequencing.

pub mod board;
pub mod error;
pub mod game;
pub mod game_move;
pub mod liberties;
pub mod stone;
pub mod ui;
pub mod union_find;
