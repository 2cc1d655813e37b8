use std::str::FromStr;

use bitcoin::Amount;
use bitcoin_coin_selection::{select_coins_srd, select_coins_srd_in_order, WeightedUtxo};
use rand::rngs::mock::StepRng;

const FEE_RATE: u64 = 10;

fn amount(s: &str) -> u64 { Amount::from_str(s).unwrap().to_sat() }

fn create_pool() -> Vec<WeightedUtxo> {
    vec![
        WeightedUtxo { value: amount("1 cBTC"), weight: 204 },
        WeightedUtxo { value: amount("2 cBTC"), weight: 204 },
    ]
}

fn get_rng() -> StepRng {
    // With a constant generator, shuffle moves the first element to the end
    // and keeps the order of the rest.
    StepRng::new(0, 0)
}

#[test]
fn select_coins_srd_with_solution() {
    let target = amount("1.5 cBTC");
    let pool = create_pool();

    let (iterations, result) =
        select_coins_srd(target, FEE_RATE, &pool, &mut get_rng()).expect("unexpected error");

    let expected_result = amount("2 cBTC");
    assert_eq!(result.len(), 1);
    assert_eq!(expected_result, result[0].value());
    assert_eq!(iterations, 1);
}

#[test]
fn select_coins_srd_no_solution() {
    let target = amount("4 cBTC");
    let pool = create_pool();

    let result = select_coins_srd(target, FEE_RATE, &pool, &mut get_rng());
    assert!(result.is_none())
}

#[test]
fn select_coins_srd_all_solution() {
    let target = amount("2.5 cBTC");
    let pool = create_pool();

    let (_, result) =
        select_coins_srd(target, FEE_RATE, &pool, &mut get_rng()).expect("unexpected error");

    let expected_second_element = amount("1 cBTC");
    let expected_first_element = amount("2 cBTC");

    assert_eq!(result.len(), 2);
    assert_eq!(result[0].value(), expected_first_element);
    assert_eq!(result[1].value(), expected_second_element);
}

#[test]
fn select_coins_srd_change_output_too_small() {
    let target = amount("3 cBTC");
    let pool = create_pool();

    let result = select_coins_srd(target, FEE_RATE, &pool, &mut get_rng());

    assert!(result.is_none());
}

#[test]
fn srd_target_above_max_money_has_no_solution() {
    let pool = vec![WeightedUtxo { value: u64::MAX / 4, weight: 0 }];
    assert!(select_coins_srd(2_100_000_000_000_001, 0, &pool, &mut get_rng()).is_none());
}

#[test]
fn srd_in_order_skips_non_positive_and_counts_steps() {
    // At 10 sat/kwu a 1000 wu spend costs 10 sat: the first output is worth nothing.
    let pool = vec![
        WeightedUtxo { value: 10, weight: 1000 },
        WeightedUtxo { value: 40_010, weight: 1000 },
        WeightedUtxo { value: 20_010, weight: 1000 },
    ];
    let (iterations, selected) =
        select_coins_srd_in_order(1, 10, &pool, &vec![0, 1, 2]).unwrap();
    assert_eq!(iterations, 3);
    assert_eq!(selected, vec![&pool[1], &pool[2]]);
    assert!(select_coins_srd_in_order(10_000, 10, &pool, &vec![0, 1, 2]).is_some());
    assert!(select_coins_srd_in_order(10_001, 10, &pool, &vec![0, 1, 2]).is_none());
}

#[test]
fn srd_result_exceeds_target_by_change_lower() {
    let pool = create_pool();
    let target = amount("1.5 cBTC");
    let (_, selected) = select_coins_srd(target, FEE_RATE, &pool, &mut get_rng()).unwrap();
    let sum: u64 = selected.iter().map(|u| u.effective_value(FEE_RATE).unwrap() as u64).sum();
    assert!(sum >= target + 50_000);
}
