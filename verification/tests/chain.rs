use markov_chain_rs::chain::{ChainError, MarkovChain};

/// Order key of a number: keys sort as the numbers sort, with both zeros equal.
fn chain_order_key(x: f64) -> u64 {
    let x = if x == 0.0 { 0.0 } else { x };
    let b = x.to_bits();
    if b >> 63 == 1 {
        !b
    } else {
        b | (1u64 << 63)
    }
}

fn rng_key(x: f64) -> u64 {
    if x.is_nan() {
        u64::MAX
    } else {
        chain_order_key(x)
    }
}

fn cumulative_keys(row: &[f64]) -> Vec<u64> {
    let mut cumsum = 0.0;
    let mut keys = Vec::new();
    for &p in row {
        cumsum += p;
        keys.push(if cumsum.is_nan() { 0 } else { chain_order_key(cumsum) });
    }
    keys
}

fn sums_to_one(v: &[f64]) -> bool {
    let sum: f64 = v.iter().sum();
    !((sum - 1.0).abs() > 1e-9)
}

fn build_chain(rows: &[Vec<f64>], initial: &[f64]) -> Result<MarkovChain, ChainError> {
    let cum: Vec<Vec<u64>> = rows.iter().map(|r| cumulative_keys(r)).collect();
    MarkovChain::new(cum, cumulative_keys(initial), sums_to_one(initial))
}

fn two_state_chain() -> MarkovChain {
    build_chain(&[vec![0.7, 0.3], vec![0.4, 0.6]], &[1.0, 0.0]).unwrap()
}

#[test]
fn test_creation() {
    let mc = two_state_chain();
    assert_eq!(mc.n(), 2);
}

#[test]
fn test_step_from() {
    let mc = two_state_chain();
    assert_eq!(mc.step_from(0, rng_key(0.0)), 0);
    assert_eq!(mc.step_from(0, rng_key(0.8)), 1);
}

#[test]
fn test_simulate() {
    let mc = two_state_chain();
    let rngs: Vec<f64> = (0..12).map(|i| i as f64 * 0.08).collect();
    let keys: Vec<u64> = rngs.iter().map(|&r| rng_key(r)).collect();
    let path = mc.simulate(10, &keys);
    assert_eq!(path.len(), 11);
    assert!(path.iter().all(|&s| s < 2));
}

#[test]
fn chain_initial_length_mismatch() {
    let r = build_chain(&[vec![0.7, 0.3], vec![0.4, 0.6]], &[1.0]);
    assert!(matches!(r, Err(ChainError::InitialLength)));
    assert_eq!(
        ChainError::InitialLength.message(),
        "Initial distribution length must match number of states"
    );
}

#[test]
fn chain_initial_bad_sum() {
    let r = build_chain(&[vec![0.7, 0.3], vec![0.4, 0.6]], &[0.5, 0.4]);
    assert!(matches!(r, Err(ChainError::InitialSum)));
    assert_eq!(ChainError::InitialSum.message(), "Initial distribution must sum to 1.0");
}

#[test]
fn chain_empty_is_refused() {
    let r = MarkovChain::new(vec![], vec![], true);
    assert!(matches!(r, Err(ChainError::InitialSum)));
}

#[test]
fn chain_step_from_second_row() {
    let mc = two_state_chain();
    // Row 1 has cumulative probabilities 0.4 then 1.0.
    assert_eq!(mc.step_from(1, rng_key(0.39)), 0);
    assert_eq!(mc.step_from(1, rng_key(0.4)), 1);
    assert_eq!(mc.step_from(1, rng_key(0.99)), 1);
}

#[test]
fn chain_step_from_falls_back_to_last_state() {
    let mc = build_chain(&[vec![0.5, 0.5], vec![0.5, 0.5]], &[0.5, 0.5]).unwrap();
    // No cumulative probability exceeds 1.0, nor a NaN value.
    assert_eq!(mc.step_from(0, rng_key(1.0)), 1);
    assert_eq!(mc.step_from(0, rng_key(f64::NAN)), 1);
}

#[test]
fn chain_simulate_follows_step_from() {
    let mc = build_chain(
        &[vec![0.1, 0.9, 0.0], vec![0.0, 0.2, 0.8], vec![0.6, 0.0, 0.4]],
        &[0.0, 0.0, 1.0],
    )
    .unwrap();
    let rngs = [0.5, 0.3, 0.05, 0.95, 0.7, 0.1];
    let keys: Vec<u64> = rngs.iter().map(|&r| rng_key(r)).collect();
    let path = mc.simulate(5, &keys);
    assert_eq!(path, vec![2, 0, 0, 1, 2, 0]);
    for t in 0..5 {
        assert_eq!(path[t + 1], mc.step_from(path[t], keys[t + 1]));
    }
}

#[test]
fn chain_simulate_zero_steps() {
    let mc = two_state_chain();
    let path = mc.simulate(0, &[rng_key(0.99)]);
    assert_eq!(path, vec![0]);
}
