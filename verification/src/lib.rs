//! An Othello/Reversi board engine on 64-bit occupancy planes: bit-level
//! primitives, per-line sandwich detection, legal-move enumeration and move
//! application with capture flips, plus a player that picks the first
//! available move.

pub mod bits;
pub mod board;
pub mod lines;
pub mod player;
