pub mod action;
pub mod bitboard;
pub mod hand;
pub mod piece;
pub mod square;
