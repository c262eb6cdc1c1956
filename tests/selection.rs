use capital_allocation::fixed::round_div_i128;
use capital_allocation::selection::{gcd, select_within, solve};

#[test]
fn rounding_is_half_away_from_zero() {
    assert_eq!(round_div_i128(5, 2), 3);
    assert_eq!(round_div_i128(-5, 2), -3);
    assert_eq!(round_div_i128(4, 3), 1);
    assert_eq!(round_div_i128(-4, 3), -1);
    assert_eq!(round_div_i128(0, 7), 0);
}

#[test]
fn gcd_of_costs() {
    assert_eq!(gcd(12, 18), 6);
    assert_eq!(gcd(0, 7), 7);
    assert_eq!(gcd(0, 0), 0);
}

#[test]
fn table_picks_one_per_group() {
    let labels = vec![0usize, 0, 2];
    let weights = vec![2u64, 1, 1];
    let values = vec![10i128, 9, 4];
    let mask = solve(&labels, &weights, &values, 2);
    assert_eq!(mask, vec![false, true, true]);
}

#[test]
fn large_budget_is_capped_by_total_weight() {
    let labels = vec![0usize, 1];
    let weights = vec![1_000_000u64, 3_000_000];
    let values = vec![1i128, 2];
    let mask = select_within(&labels, &weights, &values, 1u64 << 62);
    assert_eq!(mask, vec![true, true]);
}

#[test]
fn gcd_is_greatest() {
    assert_eq!(gcd(1_000_000, 1_500_000), 500_000);
    assert_eq!(gcd(17, 5), 1);
}
