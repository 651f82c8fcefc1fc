//! A verified Minesweeper engine.
//!
//! The library holds the board model (positions, tiles, cell visibility),
//! the grid algorithms (generation, flood-fill reveal, chorded reveal and
//! flag, win/loss detection), the replay event model (clicks, replay files
//! with their validation rules and JSON encoding), and the elapsed-time
//! state machine. A front end draws the state and feeds input events in;
//! nothing here does I/O.

pub mod board;
pub mod cascade;
pub mod click;
pub mod field;
pub mod field_generator;
pub mod fields;
pub mod grid;
pub mod json;
pub mod laws;
pub mod play_board;
pub mod position;
pub mod replay_board;
pub mod replay_file;
pub mod seven_segment_number;
pub mod sounds;
pub mod tile;
pub mod time;
pub mod utils;
pub mod visibility;
pub mod won;

use vstd::prelude::*;

verus! {

} // verus!
