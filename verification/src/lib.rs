//! Quicksweeper: Minesweeper boards, the single-player game, and Area Attack, a race between
//! players to claim a board, together with the lobby of the game server.

pub mod position;
pub mod shape;
pub mod minefield;
pub mod singleplayer;
pub mod area_attack;
pub mod lobby;
