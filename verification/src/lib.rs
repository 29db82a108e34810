pub mod bits;
pub mod board;
pub mod fen;
pub mod history;
pub mod magic;
pub mod rng;
pub mod sliders;
pub mod state;
pub mod types;
pub mod zobrist;
