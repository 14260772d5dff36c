//! Markov chain algorithms: the discrete decisions of discrete-time Markov
//! chains, transition matrices, absorbing-chain analysis and hidden Markov
//! models (Viterbi decoding), with their contracts.
//!
//! Probabilities are floating-point values; this library never holds them.
//! Where an algorithm decides something from them, it takes what the decision
//! reads: an order key that sorts the values as the numbers sort, or the
//! outcome of a numeric test.

/// Selection of a first maximum among ordered keys.
pub mod select;

/// Hidden Markov models: model dimensions and Viterbi backtracking.
pub mod hmm;
/// Discrete-time Markov chains: construction checks, one-step sampling and
/// path simulation.
pub mod chain;
/// Absorbing Markov chains: absorbing and transient states.
pub mod absorbing;
/// Transition matrices: validation and the plan of matrix powers.
pub mod transition;
