//! Bitboard chess move generation: attack tables, magic sliding lookups,
//! pin and check analysis, legal move generation and a make/unmake driver.
pub mod types;
pub mod bitboard;
pub mod moves;
pub mod board;
pub mod slides;
pub mod magic;
pub mod move_gen;
pub mod game;
pub mod laws;
pub mod fen;
