//! A Cuckatoo cycle miner: graph trimming, cycle search and proof checking.

pub mod bitmap;
pub mod bits;
pub mod cli;
pub mod coordinator;
pub mod gate;
pub mod graph;
pub mod hex_text;
pub mod keys;
pub mod link;
pub mod memory;
pub mod scan;
pub mod seqs;
pub mod shader;
pub mod siphash;
pub mod solver;
pub mod stratum;
pub mod text;
pub mod verify;
