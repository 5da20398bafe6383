pub mod bits;
pub mod board;
pub mod listing;
pub mod movegen;
pub mod perft;
pub mod rays;
pub mod sfen;
pub mod types;
pub mod usi;
