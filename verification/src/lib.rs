//! Rules and move search for Choss, a chess variant played on a rectangular
//! board: pawns may leap, capture en passant and promote to a queen or a
//! knight, and there is no castling.
//!
//! A move is a list of actions, so that a step, an en passant capture and a
//! promotion all have the same form. `board` enumerates the moves of a side
//! and plays them, each on a new board; `piece` holds what each kind of
//! piece offers; `ai` ranks the legal moves by a negamax search. Scores are
//! integers that count hundredths of a pawn.
//!
//! Every function is verified against a contract over the mathematical
//! board, `board::Grid`. What is taken on trust are three calls into other
//! crates: the cartesian product of itertools, and the random number
//! generator and the shuffle of rand.

pub mod ai;
pub mod board;
pub mod choss;
pub mod make_board;
pub mod opponent;
pub mod order;
pub mod pgn;
pub mod piece;
pub mod pos;
pub mod show;
