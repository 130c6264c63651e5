//! A replicated append-only byte sequence ("genome") that converges across
//! independent replicas exchanging small operation records in any order,
//! any number of times, with no central coordinator.

pub mod causal;
pub mod codec;
pub mod config;
pub mod genome;
pub mod hex;
pub mod mutate;
pub mod op;
pub mod order;
pub mod seqs;
pub mod state;
pub mod verify;
