use markov_chain_rs::transition::{
    check_rows, power_plan, MatrixError, PowerStart, PowerStep, RowCheck,
};

fn row_checks(data: &[Vec<f64>]) -> Vec<RowCheck> {
    data.iter()
        .map(|row| {
            let sum: f64 = row.iter().sum();
            RowCheck {
                len: row.len(),
                in_range: row.iter().all(|v| (0.0..=1.0).contains(v)),
                sums_to_one: !((sum - 1.0).abs() > 1e-9),
            }
        })
        .collect()
}

#[test]
fn test_valid_creation() {
    let m = check_rows(&row_checks(&[vec![0.5, 0.5], vec![0.3, 0.7]]));
    assert!(m.is_ok());
    assert_eq!(m.unwrap(), 2);
}

#[test]
fn test_invalid_row_sum() {
    let m = check_rows(&row_checks(&[vec![0.5, 0.3], vec![0.3, 0.7]]));
    assert!(m.is_err());
}

#[test]
fn test_negative_prob() {
    let m = check_rows(&row_checks(&[vec![-0.1, 1.1], vec![0.3, 0.7]]));
    assert!(m.is_err());
}

#[test]
fn check_rows_reports_the_first_failing_row() {
    let m = check_rows(&row_checks(&[vec![0.5, 0.5], vec![0.3, 0.3]]));
    assert_eq!(m, Err(MatrixError::RowSum));
    let m = check_rows(&row_checks(&[vec![0.5, 0.5, 0.0], vec![0.3, 0.3]]));
    assert_eq!(m, Err(MatrixError::NotSquare));
    let m = check_rows(&row_checks(&[vec![-0.1, 1.1], vec![0.3]]));
    assert_eq!(m, Err(MatrixError::OutOfRange));
}

#[test]
fn check_rows_length_before_range_before_sum() {
    let bad = RowCheck { len: 3, in_range: false, sums_to_one: false };
    assert_eq!(check_rows(&vec![bad, bad]), Err(MatrixError::NotSquare));
    let bad = RowCheck { len: 2, in_range: false, sums_to_one: false };
    assert_eq!(check_rows(&vec![bad, bad]), Err(MatrixError::OutOfRange));
    let bad = RowCheck { len: 2, in_range: true, sums_to_one: false };
    assert_eq!(check_rows(&vec![bad, bad]), Err(MatrixError::RowSum));
}

#[test]
fn check_rows_empty_matrix() {
    assert_eq!(check_rows(&vec![]), Ok(0));
}

#[test]
fn matrix_error_messages() {
    assert_eq!(MatrixError::NotSquare.message(), "Matrix must be square");
    assert_eq!(MatrixError::OutOfRange.message(), "Probabilities must be in [0,1]");
    assert_eq!(MatrixError::RowSum.message(), "Each row must sum to 1.0");
}

/// Carries out a plan on exponents: the power each matrix holds.
fn exponent_of(start: PowerStart, steps: &[PowerStep]) -> u64 {
    let mut result: u64 = match start {
        PowerStart::Identity => 0,
        PowerStart::Copy => 1,
    };
    let mut base: u64 = 1;
    for s in steps {
        match s {
            PowerStep::MultiplyResult => result += base,
            PowerStep::SquareBase => base += base,
        }
    }
    result
}

#[test]
fn power_plan_small_powers() {
    let p = power_plan(0);
    assert_eq!(p.start, PowerStart::Identity);
    assert!(p.steps.is_empty());
    let p = power_plan(1);
    assert_eq!(p.start, PowerStart::Copy);
    assert!(p.steps.is_empty());
}

#[test]
fn power_plan_cube() {
    let (m, s) = (PowerStep::MultiplyResult, PowerStep::SquareBase);
    let p = power_plan(3);
    assert_eq!(p.start, PowerStart::Identity);
    assert_eq!(p.steps, vec![m, s, m, s]);
    let p = power_plan(6);
    assert_eq!(p.steps, vec![s, m, s, m, s]);
}

#[test]
fn power_plan_reaches_every_exponent() {
    for k in [0u32, 1, 2, 3, 4, 5, 10, 100, 1000, 65535, u32::MAX] {
        let p = power_plan(k);
        assert_eq!(exponent_of(p.start, &p.steps), k as u64);
    }
}
