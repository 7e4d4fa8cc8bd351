//! A shared-board minesweeper: the board engine, the game's phases, the client
//! protocol and the per-room bookkeeping of a multiplayer server.

pub mod tile;
pub mod grid;
pub mod board;
pub mod neighs;
pub mod flood;
pub mod uncover;
pub mod moves;
pub mod relocate;
pub mod snapshot;
pub mod laying;
pub mod setup;
pub mod game;
pub mod laws;
pub mod text;
pub mod command;
pub mod outside;
pub mod message;
pub mod players;
pub mod room;
pub mod session;
pub mod gameloop;
pub mod livepos;
pub mod lobby;
