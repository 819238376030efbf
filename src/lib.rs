//! A small Markov-chain text generator: a script-aware tokenizer, a table of
//! observed token transitions, and a weighted random walk over that table.
pub mod tokenizer;
pub mod chain;
pub mod sampling;
pub mod generator;
