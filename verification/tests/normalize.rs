use coverage_profile::error::ProfileError;
use coverage_profile::normalize::{normalize, NormalizedProfile};

fn sums(profile: &NormalizedProfile) -> Vec<u128> {
    (0..profile.len()).map(|b| profile.bin_sum(b)).collect()
}

/// The value of bin `b` as the formula gives it.
fn value(profile: &NormalizedProfile, b: usize) -> f64 {
    let per_region = profile.bin_sum(b) as f64 / profile.region_count() as f64;
    (per_region / profile.bin_size() as f64) * (1e6 / profile.read_count() as f64)
}

#[test]
fn bins_hold_the_sums_of_their_positions() {
    let profile = normalize(&[1, 2, 3, 4, 5, 6], 4, 2, 2).unwrap();
    assert_eq!(sums(&profile), vec![3, 7, 11]);
    assert_eq!(profile.len(), 3);
    assert_eq!(profile.bin_size(), 2);
    assert_eq!(profile.read_count(), 4);
    assert_eq!(profile.region_count(), 2);
}

#[test]
fn last_bin_may_be_short() {
    let profile = normalize(&[1, 2, 3, 4, 5], 1, 1, 2).unwrap();
    assert_eq!(sums(&profile), vec![3, 7, 5]);
    let profile = normalize(&[1, 2, 3, 4, 5], 1, 1, 3).unwrap();
    assert_eq!(sums(&profile), vec![6, 9]);
    let profile = normalize(&[1, 2, 3, 4, 5], 1, 1, 4).unwrap();
    assert_eq!(sums(&profile), vec![10, 5]);
}

#[test]
fn number_of_bins_is_rounded_up() {
    for (len, bin, bins) in [(0, 1, 0), (0, 10, 0), (1, 10, 1), (9, 10, 1), (10, 10, 1), (11, 10, 2), (100, 10, 10),
        (100, 1, 100), (100, 100, 1), (100, 101, 1), (100, 33, 4)] {
        let profile = normalize(&vec![1u64; len], 1, 1, bin).unwrap();
        assert_eq!(profile.len(), bins, "{} positions in bins of {}", len, bin);
    }
}

#[test]
fn short_last_bin_is_divided_by_the_nominal_size() {
    let profile = normalize(&[4, 4, 4, 4, 4], 1, 1, 2).unwrap();
    assert_eq!(sums(&profile), vec![8, 8, 4]);
    assert_eq!(value(&profile, 0), 4e6);
    assert_eq!(value(&profile, 2), 2e6);
}

#[test]
fn values_follow_the_formula() {
    // per position 6 / 3 = 2; bin of two positions: (2 + 2) / 2 = 2; scale 1e6 / 4
    let profile = normalize(&[6, 6, 3, 9], 4, 3, 2).unwrap();
    assert_eq!(value(&profile, 0), 500_000.0);
    assert_eq!(value(&profile, 1), 500_000.0);
    let profile = normalize(&[10, 0, 0, 0, 0, 0, 0, 0, 0, 0], 1, 1, 10).unwrap();
    assert_eq!(value(&profile, 0), 1e6);
}

#[test]
fn no_regions_is_a_division_by_zero() {
    assert_eq!(normalize(&[1, 2, 3], 5, 0, 2).unwrap_err(), ProfileError::DivisionByZero);
    assert_eq!(normalize(&[], 5, 0, 2).unwrap_err(), ProfileError::DivisionByZero);
    assert_eq!(normalize(&[0, 0], 0, 0, 1).unwrap_err(), ProfileError::DivisionByZero);
}

#[test]
fn no_reads_is_kept_in_the_divisors() {
    let profile = normalize(&[0, 0, 0], 0, 2, 3).unwrap();
    assert_eq!(sums(&profile), vec![0]);
    assert_eq!(profile.read_count(), 0);
    assert!(value(&profile, 0).is_nan());
}

#[test]
fn normalize_is_linear_in_the_coverage() {
    let coverage: Vec<u64> = vec![0, 1, 5, 2, 0, 0, 7, 3, 1, 1, 4];
    let profile = normalize(&coverage, 7, 3, 4).unwrap();
    for k in [1u64, 2, 3, 10, 1000] {
        let scaled: Vec<u64> = coverage.iter().map(|c| c * k).collect();
        let other = normalize(&scaled, 7, 3, 4).unwrap();
        assert_eq!(other.len(), profile.len());
        for b in 0..profile.len() {
            assert_eq!(other.bin_sum(b), k as u128 * profile.bin_sum(b));
        }
        assert_eq!(other.bin_size(), profile.bin_size());
        assert_eq!(other.read_count(), profile.read_count());
        assert_eq!(other.region_count(), profile.region_count());
    }
}

#[test]
fn bin_sums_do_not_overflow() {
    let profile = normalize(&[u64::MAX, u64::MAX, u64::MAX], 1, 1, 3).unwrap();
    assert_eq!(sums(&profile), vec![3 * (u64::MAX as u128)]);
}
