use markov_chain_rs::hmm::{backtrace, HmmDims, HmmError};
use markov_chain_rs::select::first_max_index;

#[test]
fn test_hmm_creation() {
    let transition = vec![vec![0.7, 0.3], vec![0.4, 0.6]];
    let emission = vec![vec![0.9, 0.1], vec![0.2, 0.8]];
    let initial = vec![0.6, 0.4];
    let lens: Vec<usize> = emission.iter().map(|r: &Vec<f64>| r.len()).collect();
    let hmm = HmmDims::new(transition.len(), &lens, initial.len()).unwrap();
    assert_eq!(hmm.n, 2);
    assert_eq!(hmm.m, 2);
}

#[test]
fn hmm_dims_errors_in_order() {
    assert_eq!(HmmDims::new(2, &vec![3], 1), Err(HmmError::InitialLength));
    assert_eq!(HmmDims::new(2, &vec![3], 2), Err(HmmError::EmissionRows));
    assert_eq!(HmmDims::new(2, &vec![3, 4], 2), Ok(HmmDims { n: 2, m: 3 }));
    assert_eq!(HmmError::InitialLength.message(), "Initial distribution length mismatch");
    assert_eq!(
        HmmError::EmissionRows.message(),
        "Emission matrix rows must match state count"
    );
}

#[test]
fn backtrace_follows_pointers() {
    let backptr = vec![vec![0, 0, 0], vec![2, 0, 1], vec![1, 1, 0], vec![0, 2, 2]];
    let path = backtrace(&backptr, 3, 1);
    assert_eq!(path, vec![2, 0, 2, 1]);
    for t in 1..path.len() {
        assert_eq!(path[t - 1], backptr[t][path[t]]);
    }
}

#[test]
fn backtrace_single_step() {
    assert_eq!(backtrace(&vec![vec![0, 0]], 2, 1), vec![1]);
}

#[test]
fn first_max_index_picks_first_maximum() {
    assert_eq!(first_max_index(&vec![3, 9, 2, 9, 1], 0), 1);
    assert_eq!(first_max_index(&vec![3, 9, 2, 9, 1], 2), 3);
    assert_eq!(first_max_index(&vec![5, 5, 5], 0), 0);
    assert_eq!(first_max_index(&vec![5, 5, 5], 3), 3);
    assert_eq!(first_max_index(&vec![], 0), 0);
}
