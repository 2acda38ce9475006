//! A two-player stone game on a toroidal grid: the capture rule, the undo
//! history, and the message codec and decisions of the remote link.

pub mod board;
pub mod game;
pub mod remote_player;
pub mod menu;
