//! Hidden Markov models: the dimension checks of a model and the backtrace
//! that turns Viterbi back-pointers into the most likely state path.

use vstd::prelude::*;

verus! {

/// Why a hidden Markov model could not be built.
#[derive(Debug, Clone, Copy, PartialEq, Eq, Structural)]
pub enum HmmError {
    /// The initial distribution does not have one entry per hidden state.
    InitialLength,
    /// The emission matrix does not have one row per hidden state.
    EmissionRows,
}

impl HmmError {
    /// The message that reports this error.
    pub fn message(&self) -> (s: &'static str)
        ensures
            *self == HmmError::InitialLength ==> s@ == "Initial distribution length mismatch"@,
            *self == HmmError::EmissionRows ==> s@ == "Emission matrix rows must match state count"@,
    {
        match self {
            HmmError::InitialLength => "Initial distribution length mismatch",
            HmmError::EmissionRows => "Emission matrix rows must match state count",
        }
    }
}

/// The dimensions of a hidden Markov model: `n` hidden states and `m`
/// observation symbols.
#[derive(Debug, Clone, Copy, PartialEq, Eq, Structural)]
pub struct HmmDims {
    /// Number of hidden states.
    pub n: usize,
    /// Number of observation symbols.
    pub m: usize,
}

impl HmmDims {
    /// Checks the shapes of a model's parts. The number of hidden states is
    /// the number of rows of the transition matrix; the initial distribution
    /// must have that many entries (checked first), and the emission matrix
    /// that many rows. The number of symbols is the length of the first
    /// emission row.
    pub fn new(
        transition_rows: usize,
        emission_row_lengths: &Vec<usize>,
        initial_len: usize,
    ) -> (r: Result<HmmDims, HmmError>)
        requires
            initial_len == transition_rows && emission_row_lengths.len() == transition_rows
                ==> transition_rows > 0,
        ensures
            initial_len != transition_rows ==> r == Err::<HmmDims, HmmError>(HmmError::InitialLength),
            initial_len == transition_rows && emission_row_lengths.len() != transition_rows
                ==> r == Err::<HmmDims, HmmError>(HmmError::EmissionRows),
            initial_len == transition_rows && emission_row_lengths.len() == transition_rows
                ==> r == Ok::<HmmDims, HmmError>(
                HmmDims { n: transition_rows, m: emission_row_lengths@[0] },
            ),
    {
        if initial_len != transition_rows {
            return Err(HmmError::InitialLength);
        }
        if emission_row_lengths.len() != transition_rows {
            return Err(HmmError::EmissionRows);
        }
        Ok(HmmDims { n: transition_rows, m: emission_row_lengths[0] })
    }
}

/// Every step of `path` after the first is a hidden state, and each state
/// is preceded by the back-pointer recorded for it at that step.
pub open spec fn follows_back_pointers(backptr: Seq<Vec<usize>>, n: nat, path: Seq<usize>) -> bool {
    forall|t: int|
        #![trigger path[t]]
        1 <= t < path.len() ==> {
            &&& (path[t] as nat) < n
            &&& path[t - 1] == backptr[t]@[path[t] as int]
        }
}

/// Back-pointer tables as Viterbi decoding fills them: one row per time step,
/// and from the second step on, one entry per state, each naming a state.
pub open spec fn back_pointers_well_formed(backptr: Seq<Vec<usize>>, n: nat) -> bool {
    &&& backptr.len() > 0
    &&& forall|t: int| 1 <= t < backptr.len() ==> backptr[t]@.len() == n
    &&& forall|t: int, j: int|
        1 <= t < backptr.len() && 0 <= j < n ==> (#[trigger] backptr[t]@[j] as nat) < n
}

/// Recovers the most likely state path from Viterbi back-pointers: the path
/// ends in `last`, and walking backwards each state is the back-pointer
/// recorded for its successor. The path has one state per time step.
pub fn backtrace(backptr: &Vec<Vec<usize>>, n: usize, last: usize) -> (path: Vec<usize>)
    requires
        back_pointers_well_formed(backptr@, n as nat),
        backptr.len() > 1 ==> last < n,
    ensures
        path.len() == backptr.len(),
        path@[path.len() - 1] == last,
        follows_back_pointers(backptr@, n as nat, path@),
        forall|t: int|
            1 <= t < path.len() ==> path@[t] < n && path@[t - 1] == backptr@[t]@[#[trigger] path@[t] as int],
        last < n ==> forall|i: int| 0 <= i < path.len() ==> path@[i] < n,
{
    let t_len = backptr.len();
    let mut path: Vec<usize> = Vec::new();
    let mut k: usize = 0;
    while k < t_len
        invariant
            path.len() == k,
            k <= t_len,
        decreases t_len - k,
    {
        path.push(0);
        k = k + 1;
    }
    path.set(t_len - 1, last);
    let mut t: usize = t_len - 1;
    while t > 0
        invariant
            t_len == backptr.len(),
            back_pointers_well_formed(backptr@, n as nat),
            backptr.len() > 1 ==> last < n,
            t < t_len,
            path.len() == t_len,
            path@[t_len - 1] == last,
            forall|u: int| t <= u < t_len && 1 <= u ==> path@[u] < n,
            forall|u: int|
                t < u < t_len ==> path@[u - 1] == #[trigger] backptr@[u]@[path@[u] as int],
        decreases t,
    {
        let p = path[t];
        let prev = backptr[t][p];
        path.set(t - 1, prev);
        t = t - 1;
    }
    proof {
        if t_len > 1 {
            assert(path@[0] == backptr@[1]@[path@[1] as int]);
        }
    }
    path
}

/// Every step of a path that follows the back-pointers, the first included,
/// is the back-pointer recorded for its successor, and every step after the
/// first is a state.
pub proof fn lemma_back_pointer_steps(backptr: Seq<Vec<usize>>, n: nat, path: Seq<usize>)
    requires
        follows_back_pointers(backptr, n, path),
    ensures
        forall|t: int|
            1 <= t < path.len() ==> (path[t] as nat) < n && path[t - 1] == backptr[t]@[
                #[trigger] path[t] as int],
        path.len() > 1 ==> path[0] == backptr[1]@[path[1] as int],
{
    assert forall|t: int| 1 <= t < path.len() implies (path[t] as nat) < n && path[t - 1]
        == backptr[t]@[#[trigger] path[t] as int] by {
        assert(path[t] == path[t]);
    }
}

proof fn lemma_agree_from(backptr: Seq<Vec<usize>>, p1: Seq<usize>, p2: Seq<usize>, k: int)
    requires
        p1.len() == p2.len(),
        0 <= k < p1.len(),
        forall|u: int| k <= u < p1.len() ==> p1[u] == p2[u],
        forall|t: int| 1 <= t < p1.len() ==> p1[t - 1] == backptr[t]@[#[trigger] p1[t] as int],
        forall|t: int| 1 <= t < p2.len() ==> p2[t - 1] == backptr[t]@[#[trigger] p2[t] as int],
    ensures
        forall|u: int| 0 <= u < p1.len() ==> p1[u] == p2[u],
    decreases k,
{
    if k > 0 {
        assert(p1[k - 1] == backptr[k]@[p1[k] as int]);
        assert(p2[k - 1] == backptr[k]@[p2[k] as int]);
        lemma_agree_from(backptr, p1, p2, k - 1);
    }
}

/// The back-pointers and the last state determine the whole path: two paths
/// of the same length that end in the same state, and in which each state is
/// the back-pointer recorded for its successor, are equal at every step.
pub proof fn lemma_back_pointer_path_unique(backptr: Seq<Vec<usize>>, p1: Seq<usize>, p2: Seq<usize>)
    requires
        p1.len() == p2.len(),
        p1.len() > 0,
        p1[p1.len() - 1] == p2[p2.len() - 1],
        forall|t: int| 1 <= t < p1.len() ==> p1[t - 1] == backptr[t]@[#[trigger] p1[t] as int],
        forall|t: int| 1 <= t < p2.len() ==> p2[t - 1] == backptr[t]@[#[trigger] p2[t] as int],
    ensures
        p1 == p2,
{
    lemma_agree_from(backptr, p1, p2, p1.len() - 1);
    assert(p1 =~= p2);
}

} // verus!
