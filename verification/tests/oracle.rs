//! Scenario tests for the two oracles: the half-life decay calculation
//! and the divergence check, run through the library exactly as the
//! command-line entry points run them.

use decay_oracle::divergence::{abs_difference, divergence_word};
use decay_oracle::numeral::parse_u128;
use decay_oracle::words::encode_word;

const SECONDS_IN_A_DAY: f64 = 86400.0;
const HALF_LIFE_IN_DAYS: f64 = 365.0;
const TOLERANCE_DENOMINATOR: f64 = 10000.0;

fn remaining_amount(initial_amount: f64, seconds_past: u128) -> f64 {
    let days_past = seconds_past as f64 / SECONDS_IN_A_DAY;
    initial_amount * 0.5f64.powf(days_past / HALF_LIFE_IN_DAYS)
}

fn half_life_oracle(initial_amount: f64, seconds_past: u128) -> String {
    encode_word(remaining_amount(initial_amount, seconds_past) as u128)
}

fn divergence_oracle(solidity_output: u128, rust_output: f64) -> String {
    let difference = abs_difference(solidity_output, rust_output as i128);
    let diverged = difference as f64 > rust_output / TOLERANCE_DENOMINATOR;
    divergence_word(diverged)
}

const ZERO_WORD: &str = "0x0000000000000000000000000000000000000000000000000000000000000000";
const ONE_WORD: &str = "0x0000000000000000000000000000000000000000000000000000000000000001";

#[test]
fn no_decay_at_zero_elapsed_time() {
    assert_eq!(remaining_amount(1_000_000.0, 0) as u128, 1_000_000);
    assert_eq!(remaining_amount(1234.5, 0) as u128, 1234);
    assert_eq!(remaining_amount(0.0, 0) as u128, 0);
}

#[test]
fn one_million_at_zero_elapsed_encodes_padded() {
    assert_eq!(
        half_life_oracle(1_000_000.0, 0),
        "0x00000000000000000000000000000000000000000000000000000000000f4240"
    );
}

#[test]
fn one_full_half_life_halves_the_amount() {
    let seconds = parse_u128("31536000").unwrap();
    assert_eq!(remaining_amount(1000.0, seconds) as u128, 500);
    assert_eq!(
        half_life_oracle(1000.0, seconds),
        "0x00000000000000000000000000000000000000000000000000000000000001f4"
    );
}

#[test]
fn decay_is_monotonically_non_increasing_in_samples() {
    let times: [u128; 7] = [0, 1, 86_400, 1_000_000, 31_536_000, 63_072_000, 3_153_600_000];
    let mut previous: u128 = u128::MAX;
    for seconds in times {
        let remaining = remaining_amount(1_000_000.0, seconds) as u128;
        assert!(remaining <= previous);
        previous = remaining;
    }
}

#[test]
fn huge_elapsed_time_underflows_to_zero() {
    assert_eq!(half_life_oracle(1_000_000.0, u64::MAX as u128), ZERO_WORD.to_string());
}

#[test]
fn exact_match_passes_divergence_check() {
    assert_eq!(divergence_oracle(1_000_000, 1_000_000.0), ZERO_WORD.to_string());
}

#[test]
fn one_percent_off_fails_divergence_check() {
    assert_eq!(abs_difference(1_000_000, 990_000), 10_000);
    assert_eq!(divergence_oracle(1_000_000, 990_000.0), ONE_WORD.to_string());
}

#[test]
fn within_tolerance_passes_divergence_check() {
    // tolerance is 0.01% of the reference: 99 for a reference of 990000
    assert_eq!(divergence_oracle(990_099, 990_000.0), ZERO_WORD.to_string());
    assert_eq!(divergence_oracle(990_100, 990_000.0), ONE_WORD.to_string());
}

#[test]
fn zero_reference_requires_exact_equality() {
    assert_eq!(divergence_oracle(0, 0.0), ZERO_WORD.to_string());
    assert_eq!(divergence_oracle(1, 0.0), ONE_WORD.to_string());
}

#[test]
fn abs_difference_is_symmetric_around_the_reference() {
    assert_eq!(abs_difference(5, 9), 4);
    assert_eq!(abs_difference(9, 5), 4);
    assert_eq!(abs_difference(7, 7), 0);
}

#[test]
fn abs_difference_handles_negative_reference() {
    assert_eq!(abs_difference(3, -4), 7);
    assert_eq!(abs_difference(0, -1), 1);
    assert_eq!(abs_difference(0, i128::MIN), 1u128 << 127);
    assert_eq!(
        abs_difference(i128::MAX as u128, i128::MIN),
        u128::MAX
    );
}

#[test]
fn divergence_word_polarity() {
    assert_eq!(divergence_word(true), encode_word(1));
    assert_eq!(divergence_word(false), encode_word(0));
    assert_eq!(divergence_word(true), ONE_WORD.to_string());
    assert_eq!(divergence_word(false), ZERO_WORD.to_string());
}
