//! A first-order Markov chain over tokens of any type with a decidable equality.
//!
//! A chain is trained with token sequences and then walked from the start of a sequence
//! to its end. Every successor is drawn in proportion to how often it followed the
//! current state in the training sequences.
//!
//! - `row` and `table` hold the mathematical model: ordered rows of counts, and the table
//!   of the states with their rows.
//! - `training` says what a sequence of tokens adds to a table.
//! - `distribution` is the executable row with the sampler, `random` the sources of the
//!   numbers that the sampler is asked with.
//! - `chain` is the chain itself: feeding, the states by number, and snapshots.
//! - `walk` generates sequences, `iter` hands them out one by one, and `text` does both
//!   for chains of words.
//! - `laws` states what holds of every chain.

pub mod row;
pub mod distribution;
pub mod random;
pub mod table;
pub mod training;
pub mod chain;
pub mod walk;
pub mod text;
pub mod iter;
pub mod laws;
