use markov_chain_rs::absorbing::{find_absorbing_states, transient_states};

fn absorbing_flags(data: &[Vec<f64>]) -> Vec<bool> {
    (0..data.len()).map(|i| (data[i][i] - 1.0).abs() < 1e-10).collect()
}

#[test]
fn test_find_absorbing() {
    let tm = vec![vec![1.0, 0.0, 0.0], vec![0.5, 0.0, 0.5], vec![0.3, 0.3, 0.4]];
    assert_eq!(find_absorbing_states(&absorbing_flags(&tm)), vec![0]);
}

#[test]
fn test_all_absorbing() {
    let tm = vec![vec![1.0, 0.0], vec![0.0, 1.0]];
    assert_eq!(find_absorbing_states(&absorbing_flags(&tm)).len(), 2);
}

#[test]
fn test_no_absorbing() {
    let tm = vec![vec![0.5, 0.5], vec![0.5, 0.5]];
    assert!(find_absorbing_states(&absorbing_flags(&tm)).is_empty());
}

#[test]
fn absorbing_and_transient_partition_states() {
    let flags = vec![false, true, true, false, false, true];
    let a = find_absorbing_states(&flags);
    let t = transient_states(flags.len(), &a);
    assert_eq!(a, vec![1, 2, 5]);
    assert_eq!(t, vec![0, 3, 4]);
    assert_eq!(a.len() + t.len(), flags.len());
}

#[test]
fn transient_states_of_fundamental_example() {
    let tm = vec![vec![1.0, 0.0, 0.0], vec![0.5, 0.0, 0.5], vec![0.5, 0.5, 0.0]];
    let a = find_absorbing_states(&absorbing_flags(&tm));
    assert_eq!(transient_states(3, &a), vec![1, 2]);
}

#[test]
fn transient_states_ignore_out_of_range_entries() {
    assert_eq!(transient_states(4, &vec![7, 2, 2]), vec![0, 1, 3]);
    assert!(transient_states(0, &vec![]).is_empty());
}
