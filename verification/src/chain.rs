//! Discrete-time Markov chains as a sampler sees them.
//!
//! Sampling a next state walks the cumulative probabilities of a row and stops
//! at the first one that exceeds the random value. Here each cumulative
//! probability, and each random value, is given as an order key: a `u64`
//! such that `rng_key < cumulative_key` holds exactly when the random value is
//! below the cumulative probability.

use vstd::prelude::*;

verus! {

/// Why a Markov chain could not be built.
#[derive(Debug, Clone, Copy, PartialEq, Eq, Structural)]
pub enum ChainError {
    /// The initial distribution does not have one entry per state.
    InitialLength,
    /// The initial distribution does not sum to one.
    InitialSum,
}

impl ChainError {
    /// The message that reports this error.
    pub fn message(&self) -> (s: &'static str)
        ensures
            *self == ChainError::InitialLength
                ==> s@ == "Initial distribution length must match number of states"@,
            *self == ChainError::InitialSum ==> s@ == "Initial distribution must sum to 1.0"@,
    {
        match self {
            ChainError::InitialLength => "Initial distribution length must match number of states",
            ChainError::InitialSum => "Initial distribution must sum to 1.0",
        }
    }
}

/// `r` is the state that sampling picks from the cumulative keys `cum` with
/// the random key `rng`: the first position whose cumulative key exceeds
/// `rng`, or the last position where none does.
pub open spec fn is_sampled(cum: Seq<u64>, rng: u64, r: int) -> bool {
    &&& 0 <= r < cum.len()
    &&& forall|j: int| 0 <= j < r ==> !(rng < #[trigger] cum[j])
    &&& (rng < cum[r] || r == cum.len() - 1)
}

/// Sampling is a function of the cumulative row and the random key: two
/// states that both satisfy it are the same state.
pub proof fn lemma_sampled_state_unique(cum: Seq<u64>, rng: u64, r1: int, r2: int)
    requires
        is_sampled(cum, rng, r1),
        is_sampled(cum, rng, r2),
    ensures
        r1 == r2,
{
    if r1 < r2 {
        assert(!(rng < cum[r1]));
    } else if r2 < r1 {
        assert(!(rng < cum[r2]));
    }
}

/// What sampling picks, in terms of the row and the random key: a position
/// of the row, every earlier cumulative key is at most the random key, and
/// the position's own key exceeds it unless it is the last position. So when
/// some cumulative key exceeds the random key, the picked position is the
/// least such position; when none does, it is the last position.
pub proof fn lemma_sampled_state_characterized(cum: Seq<u64>, rng: u64, r: int)
    requires
        0 <= r < cum.len(),
        forall|j: int| 0 <= j < r ==> !(rng < #[trigger] cum[j]),
        rng < cum[r] || r == cum.len() - 1,
    ensures
        is_sampled(cum, rng, r),
        forall|j: int| 0 <= j < r ==> cum[j] <= rng,
        forall|j: int| 0 <= j < cum.len() && rng < cum[j] ==> r <= j && rng < cum[r],
        (forall|j: int| 0 <= j < cum.len() ==> cum[j] <= rng) ==> r == cum.len() - 1,
{
    assert forall|j: int| 0 <= j < cum.len() && rng < cum[j] implies r <= j && rng < cum[r] by {
        if j < r {
            assert(!(rng < cum[j]));
        }
    }
}

/// Every sampled state satisfies the characterization above.
pub proof fn lemma_sampled_state_least_exceeding(cum: Seq<u64>, rng: u64, r: int)
    requires
        is_sampled(cum, rng, r),
    ensures
        0 <= r < cum.len(),
        forall|j: int| 0 <= j < r ==> cum[j] <= rng,
        rng < cum[r] || r == cum.len() - 1,
        forall|j: int| 0 <= j < cum.len() && rng < cum[j] ==> r <= j && rng < cum[r],
{
    lemma_sampled_state_characterized(cum, rng, r);
}

/// Sampling over a non-empty row always picks one of its positions.
pub proof fn lemma_sampled_state_exists(cum: Seq<u64>, rng: u64)
    requires
        cum.len() > 0,
    ensures
        exists|r: int| is_sampled(cum, rng, r),
{
    let r = choose_sample(cum, rng, 0);
    lemma_choose_sample(cum, rng, 0);
    assert(is_sampled(cum, rng, r));
}

spec fn choose_sample(cum: Seq<u64>, rng: u64, i: int) -> int
    decreases cum.len() - i,
{
    if i >= cum.len() - 1 || rng < cum[i] {
        i
    } else {
        choose_sample(cum, rng, i + 1)
    }
}

proof fn lemma_choose_sample(cum: Seq<u64>, rng: u64, i: int)
    requires
        0 <= i < cum.len(),
        forall|j: int| 0 <= j < i ==> !(rng < #[trigger] cum[j]),
    ensures
        is_sampled(cum, rng, choose_sample(cum, rng, i)),
    decreases cum.len() - i,
{
    if !(i >= cum.len() - 1 || rng < cum[i]) {
        lemma_choose_sample(cum, rng, i + 1);
    }
}

/// A Markov chain over states `0..n`, held as the cumulative probabilities of
/// each row of its transition matrix and of its initial distribution, each
/// as an order key.
pub struct MarkovChain {
    cumulative: Vec<Vec<u64>>,
    initial_cumulative: Vec<u64>,
}

impl MarkovChain {
    /// The cumulative keys of each row of the transition matrix.
    pub closed spec fn rows(self) -> Seq<Seq<u64>> {
        self.cumulative@.map_values(|r: Vec<u64>| r@)
    }

    /// The cumulative keys of the initial distribution.
    pub closed spec fn initial(self) -> Seq<u64> {
        self.initial_cumulative@
    }

    /// The number of states.
    pub open spec fn state_count(self) -> nat {
        self.rows().len()
    }

    proof fn lemma_rows(self)
        ensures
            self.rows().len() == self.cumulative.len(),
            forall|i: int|
                0 <= i < self.cumulative.len() ==> #[trigger] self.rows()[i]
                    == self.cumulative@[i]@,
    {
    }

    /// A chain has at least one state, a square transition matrix and one
    /// initial entry per state.
    #[verifier::type_invariant]
    closed spec fn well_formed(self) -> bool {
        &&& self.cumulative.len() > 0
        &&& self.initial_cumulative.len() == self.cumulative.len()
        &&& forall|i: int|
            0 <= i < self.cumulative.len() ==> #[trigger] self.cumulative@[i].len()
                == self.cumulative.len()
    }

    /// Builds a chain from the cumulative keys of a square transition matrix
    /// and of an initial distribution, and whether that distribution sums to
    /// one. The length of the initial distribution is checked first; an empty
    /// distribution sums to zero.
    pub fn new(rows: Vec<Vec<u64>>, initial: Vec<u64>, initial_sums_to_one: bool) -> (r: Result<
        MarkovChain,
        ChainError,
    >)
        requires
            forall|i: int| 0 <= i < rows.len() ==> (#[trigger] rows@[i]).len() == rows.len(),
        ensures
            initial.len() != rows.len() ==> r == Err::<MarkovChain, ChainError>(
                ChainError::InitialLength,
            ),
            initial.len() == rows.len() && (!initial_sums_to_one || initial.len() == 0) ==> r
                == Err::<MarkovChain, ChainError>(ChainError::InitialSum),
            initial.len() == rows.len() && initial_sums_to_one && initial.len() > 0 ==> {
                &&& r is Ok
                &&& r->Ok_0.rows() == rows@.map_values(|row: Vec<u64>| row@)
                &&& r->Ok_0.initial() == initial@
            },
    {
        if initial.len() != rows.len() {
            return Err(ChainError::InitialLength);
        }
        if !initial_sums_to_one || initial.len() == 0 {
            return Err(ChainError::InitialSum);
        }
        Ok(MarkovChain { cumulative: rows, initial_cumulative: initial })
    }

    /// Number of states. A chain has at least one state, and each row of
    /// its transition matrix and its initial distribution have one entry per
    /// state.
    pub fn n(&self) -> (r: usize)
        ensures
            r == self.state_count(),
            r > 0,
            self.initial().len() == r,
            forall|i: int| 0 <= i < r ==> (#[trigger] self.rows()[i]).len() == r,
    {
        proof {
            use_type_invariant(self);
            self.lemma_rows();
            assert forall|i: int| 0 <= i < self.cumulative.len() implies (
            #[trigger] self.rows()[i]).len() == self.cumulative.len() by {
                assert(self.cumulative@[i].len() == self.cumulative.len());
            }
        }
        self.cumulative.len()
    }

    /// Picks a position from cumulative keys: the first whose key exceeds
    /// `rng`, else the last.
    pub fn sample_state(cum: &Vec<u64>, rng: u64) -> (r: usize)
        requires
            cum.len() > 0,
        ensures
            is_sampled(cum@, rng, r as int),
            r < cum.len(),
            forall|j: int| 0 <= j < r ==> cum@[j] <= rng,
            rng < cum@[r as int] || r == cum.len() - 1,
            forall|j: int| 0 <= j < cum.len() && rng < cum@[j] ==> r <= j && rng < cum@[r as int],
    {
        let mut j: usize = 0;
        while j < cum.len()
            invariant
                j <= cum.len(),
                forall|k: int| 0 <= k < j ==> !(rng < #[trigger] cum@[k]),
            decreases cum.len() - j,
        {
            if rng < cum[j] {
                proof {
                    lemma_sampled_state_characterized(cum@, rng, j as int);
                }
                return j;
            }
            j = j + 1;
        }
        proof {
            lemma_sampled_state_characterized(cum@, rng, cum.len() - 1);
        }
        cum.len() - 1
    }

    /// Simulates one step from state `s` with the random key `rng`: the next
    /// state is the first whose cumulative transition probability from `s`
    /// exceeds the random value, or the last state where none does.
    pub fn step_from(&self, s: usize, rng: u64) -> (r: usize)
        requires
            s < self.state_count(),
        ensures
            r < self.state_count(),
            is_sampled(self.rows()[s as int], rng, r as int),
            forall|j: int| 0 <= j < r ==> self.rows()[s as int][j] <= rng,
            rng < self.rows()[s as int][r as int] || r == self.state_count() - 1,
            forall|j: int|
                0 <= j < self.state_count() && rng < self.rows()[s as int][j] ==> r <= j && rng
                    < self.rows()[s as int][r as int],
    {
        proof {
            use_type_invariant(self);
            self.lemma_rows();
        }
        let row = &self.cumulative[s];
        assert(self.rows()[s as int] == row@);
        Self::sample_state(row, rng)
    }

    /// Simulates a path of `steps` transitions. The first state is sampled
    /// from the initial distribution with `rngs[0]`; each later state is the
    /// step from its predecessor with the next random key.
    pub fn simulate(&self, steps: usize, rngs: &[u64]) -> (path: Vec<usize>)
        requires
            rngs.len() > steps,
        ensures
            path.len() == steps + 1,
            is_sampled(self.initial(), rngs@[0], path@[0] as int),
            forall|t: int|
                0 <= t < steps ==> is_sampled(
                    self.rows()[#[trigger] path@[t] as int],
                    rngs@[t + 1],
                    path@[t + 1] as int,
                ),
            forall|i: int| 0 <= i < path.len() ==> path@[i] < self.state_count(),
            forall|j: int| 0 <= j < path@[0] ==> self.initial()[j] <= rngs@[0],
            rngs@[0] < self.initial()[path@[0] as int] || path@[0] == self.state_count() - 1,
            forall|t: int, j: int|
                0 <= t < steps && 0 <= j < path@[t + 1] ==> #[trigger] self.rows()[path@[t] as int][j]
                    <= rngs@[t + 1],
            forall|t: int|
                0 <= t < steps ==> rngs@[t + 1] < self.rows()[#[trigger] path@[t] as int][path@[t
                    + 1] as int] || path@[t + 1] == self.state_count() - 1,
    {
        proof {
            use_type_invariant(self);
            self.lemma_rows();
        }
        let mut path: Vec<usize> = Vec::new();
        let first = Self::sample_state(&self.initial_cumulative, rngs[0]);
        path.push(first);
        let mut t: usize = 0;
        while t < steps
            invariant
                rngs.len() > steps,
                t <= steps,
                path.len() == t + 1,
                self.state_count() == self.cumulative.len(),
                self.initial_cumulative.len() == self.cumulative.len(),
                is_sampled(self.initial(), rngs@[0], path@[0] as int),
                forall|u: int|
                    0 <= u < t ==> is_sampled(
                        self.rows()[#[trigger] path@[u] as int],
                        rngs@[u + 1],
                        path@[u + 1] as int,
                    ),
                forall|i: int| 0 <= i < path.len() ==> path@[i] < self.state_count(),
            decreases steps - t,
        {
            let next = self.step_from(path[t], rngs[t + 1]);
            path.push(next);
            t = t + 1;
        }
        proof {
            assert forall|u: int| 0 <= u < steps implies rngs@[u + 1] < self.rows()[
                #[trigger] path@[u] as int][path@[u + 1] as int] || path@[u + 1]
                == self.state_count() - 1 by {
                let s = path@[u] as int;
                assert(self.cumulative@[s].len() == self.cumulative.len());
                assert(self.rows()[s] == self.cumulative@[s]@);
            }
        }
        path
    }
}

} // verus!
