//! Move generation for a draughts variant on an 8x8 board.
//!
//! Given a position and the player to move, `moves::list` returns every
//! position that one legal turn can lead to. Captures are mandatory, a piece
//! may go on jumping as long as it finds something to jump over, and a pawn
//! that reaches the far row becomes a queen.
//!
//! The executable code is layered leaf first:
//! - `field`: what one square holds and how far a piece may step;
//! - `board`: the 64 squares, the legality of a single step and its effect;
//! - `moves`: the turns of a player.
//!
//! The remaining modules are ghost code. `geometry` names rows, columns and
//! diagonals. `legal`, `counting`, `aftermath`, `laws` and `chains` prove
//! what holds of every step and every turn.

pub mod field;
pub mod geometry;
pub mod board;
pub mod counting;
pub mod legal;
pub mod moves;
pub mod laws;
pub mod aftermath;
pub mod chains;
