# markov_chain_rs

Markov chain algorithms — transition matrices, Markov chains, absorbing-chain
analysis and hidden Markov models — split in two parts:

- `src/` is a library verified with Verus. It holds every decision the
  algorithms take: which error a candidate transition matrix is refused with,
  the multiplications that raise a matrix to a power by repeated squaring,
  the state that a random value picks when a chain is sampled or simulated,
  the absorbing and transient states of a chain, the pivot and predecessor
  choices (first maximum of order keys), the Viterbi backtrace, and the
  dimension checks of a hidden Markov model. Probabilities reach it as order
  keys (`u64` values that sort as the numbers do) or as the outcomes of
  numeric tests.
- `app/` is the floating-point part: the `f64` matrices and distributions,
  their arithmetic, power iteration, Gauss-Jordan elimination and the forward
  algorithm, with the same public API as before. It converts numbers into keys
  and calls the library for each decision.

`tests/` runs the verified library on concrete inputs.
