//! A chess engine library: bitboard positions, magic-bitboard move
//! generation, FEN and UCI text, perft, evaluation terms, an opening book,
//! an alpha-beta search and the UCI-lite protocol state, each with its
//! contract proved by Verus.
use vstd::prelude::*;

pub mod bits;
pub mod board;
pub mod movegen;
pub mod perft;
pub mod text;
pub mod fen;
pub mod fen_law;
pub mod eval;
pub mod book;
pub mod search;
pub mod plain;
pub mod move_law;
pub mod uci;

verus! {

} // verus!
