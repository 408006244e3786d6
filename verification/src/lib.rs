//! A word-level Markov chain over plain text: a growing vocabulary with
//! dense per-word transition statistics, exact-count training, weighted
//! random paragraph generation, and a validated persisted form.

pub mod markov;
pub mod split;
pub mod sums;
