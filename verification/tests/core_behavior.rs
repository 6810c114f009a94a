use audiotar::decompose::process;
use audiotar::resample::{stretch, stretch_linear};
use audiotar::stats::{correlation, covariance, expected_value, standard_deviation};
use audiotar::{audiotar, InputError, SCALE};

fn scaled(samples: &[i64]) -> Vec<i64> {
    samples.iter().map(|&x| x * SCALE).collect()
}

#[test]
fn stretch_to_own_length_is_identity() {
    let data: Vec<i64> = vec![3, -5, 7, 9];
    assert_eq!(stretch(&data, 4), vec![3, -5, 7, 9]);
}

#[test]
fn stretch_single_sample_replicates() {
    let data: Vec<i64> = vec![65536];
    assert_eq!(stretch(&data, 4), vec![65536, 65536, 65536, 65536]);
}

#[test]
fn stretch_is_floor_sample_lookup() {
    let data: Vec<i64> = vec![10, 20];
    assert_eq!(stretch(&data, 4), vec![10, 10, 20, 20]);
}

#[test]
fn stretch_to_zero_is_empty() {
    let data: Vec<i64> = vec![5];
    assert_eq!(stretch(&data, 0), Vec::<i64>::new());
}

#[test]
fn stretch_linear_interpolates_between_samples() {
    let data: Vec<i64> = vec![0, 400];
    assert_eq!(stretch_linear(&data, 4, 400), vec![0, 200, 400, 400]);
}

#[test]
fn stretch_linear_to_own_length_is_identity() {
    let data: Vec<i64> = vec![1, 2, 3];
    assert_eq!(stretch_linear(&data, 3, 10), vec![1, 2, 3]);
}

#[test]
fn mean_of_constant_is_that_constant() {
    let data: Vec<i64> = vec![7, 7, 7];
    assert_eq!(expected_value(&data), 7);
}

#[test]
fn mean_rounds_toward_zero() {
    let pos: Vec<i64> = vec![1, 2];
    let neg: Vec<i64> = vec![-1, -2];
    assert_eq!(expected_value(&pos), 1);
    assert_eq!(expected_value(&neg), -1);
}

#[test]
fn stddev_of_constant_is_zero() {
    let data: Vec<i64> = vec![7, 7, 7];
    assert_eq!(standard_deviation(&data), 0);
}

#[test]
fn stddev_exact_unit() {
    let data: Vec<i64> = vec![0, 2];
    assert_eq!(standard_deviation(&data), 1);
}

#[test]
fn covariance_of_pair_with_itself() {
    let data: Vec<i64> = vec![0, 2];
    assert_eq!(covariance(&data, &data), 1);
}

#[test]
fn covariance_truncates_to_shorter_signal() {
    let a: Vec<i64> = vec![0, 2];
    let b: Vec<i64> = vec![0, 2, 100];
    assert_eq!(covariance(&a, &b), 1);
}

#[test]
fn correlation_with_itself_is_one() {
    let data: Vec<i64> = scaled(&[1, 2, 3, 4, 5, 6, 7, 8]);
    assert_eq!(correlation(&data, &data), SCALE);
}

#[test]
fn correlation_with_negation_is_minus_one() {
    let data: Vec<i64> = scaled(&[1, 2, 3, 4, 5, 6, 7, 8]);
    let negated: Vec<i64> = data.iter().map(|&x| -x).collect();
    assert_eq!(correlation(&data, &negated), -SCALE);
}

#[test]
fn correlation_of_constant_signal_is_zero() {
    let flat: Vec<i64> = vec![5, 5];
    let ramp: Vec<i64> = vec![1, 2];
    assert_eq!(correlation(&flat, &ramp), 0);
}

#[test]
fn process_on_zero_residual_stays_zero() {
    let mut residual: Vec<i64> = vec![0; 6];
    let basis: Vec<i64> = scaled(&[1, 2, 1, 2, 1, 2]);
    let out = process(&mut residual, 0, 6, &basis, 3);
    assert_eq!(out, vec![0; 6]);
    assert_eq!(residual, vec![0; 6]);
}

#[test]
fn process_touches_only_its_range() {
    let mut residual: Vec<i64> = vec![10, 20, 30, 40];
    let basis: Vec<i64> = vec![1, 2];
    let out = process(&mut residual, 1, 2, &basis, 2);
    assert_eq!(out.len(), 2);
    assert_eq!(residual[0], 10);
    assert_eq!(residual[3], 40);
}

#[test]
fn odd_segment_pairs_to_the_shorter_length() {
    // Basis shorter than the segment: the update pairs two samples and
    // leaves the third untouched, with its output slot at zero.
    // correlation([0, 2s, 7s], [0, 2s]) = floor(4294967296 / 192932) = 22261.
    let mut residual: Vec<i64> = vec![0, 131072, 458752];
    let basis: Vec<i64> = vec![0, 131072];
    let out = process(&mut residual, 0, 3, &basis, 1);
    assert_eq!(out, vec![0, 44522, 0]);
    assert_eq!(residual, vec![0, 131072 - 44522, 458752]);
}

#[test]
fn degenerate_basis_contributes_nothing() {
    let target: Vec<i64> = scaled(&[2, 2, 2, 2]);
    let template: Vec<i64> = scaled(&[1]);
    let out = audiotar(&target, &template, 1).unwrap();
    assert_eq!(out, vec![0, 0, 0, 0]);
}

#[test]
fn identical_signals_match_exactly_in_one_level() {
    let target: Vec<i64> = scaled(&[1, 2, 3, 4, 5, 6, 7, 8]);
    let out = audiotar(&target, &target, 1).unwrap();
    assert_eq!(out, target);
}

#[test]
fn output_length_equals_target_length() {
    let target: Vec<i64> = scaled(&[3, -1, 4, -1, 5]);
    let template: Vec<i64> = scaled(&[1, -2]);
    let out = audiotar(&target, &template, 7).unwrap();
    assert_eq!(out.len(), 5);
}

#[test]
fn deep_levels_terminate_by_segment_exhaustion() {
    let target: Vec<i64> = scaled(&[5, 3, -2, 8, 1, 1, -7, 4]);
    let template: Vec<i64> = scaled(&[2, -1, 3]);
    let out = audiotar(&target, &template, 100).unwrap();
    assert_eq!(out.len(), 8);
}

#[test]
fn zero_levels_yield_zero_output() {
    let target: Vec<i64> = vec![100];
    let template: Vec<i64> = vec![50];
    assert_eq!(audiotar(&target, &template, 0), Ok(vec![0]));
}

#[test]
fn empty_target_is_rejected() {
    let target: Vec<i64> = Vec::new();
    let template: Vec<i64> = vec![1];
    assert_eq!(audiotar(&target, &template, 1), Err(InputError::EmptyTarget));
}

#[test]
fn empty_template_is_rejected() {
    let target: Vec<i64> = vec![1];
    let template: Vec<i64> = Vec::new();
    assert_eq!(audiotar(&target, &template, 3), Err(InputError::EmptyTemplate));
}
