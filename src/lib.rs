pub mod census;
pub mod codec;
pub mod counting;
pub mod game;
pub mod iterative;
pub mod laws;
pub mod optimal;
pub mod popcount;
pub mod recursive;
pub mod user;
