use std::str::FromStr;

use bitcoin::{Amount, FeeRate, SignedAmount, Weight};
use bitcoin_coin_selection::{select_coins_bnb, WeightedUtxo};

fn parse_amount(s: &str) -> u64 {
    let s = s.trim();
    if s == "0" {
        return 0;
    }
    if let Some(n) = s.strip_suffix(" sats").or_else(|| s.strip_suffix(" sat")) {
        if let Ok(v) = n.parse::<u64>() {
            return v;
        }
    }
    Amount::from_str(s).unwrap().to_sat()
}

fn parse_signed_amount(s: &str) -> i64 {
    let s = s.trim();
    if let Some(n) = s.strip_suffix(" sats").or_else(|| s.strip_suffix(" sat")) {
        if let Ok(v) = n.parse::<i64>() {
            return v;
        }
    }
    SignedAmount::from_str(s).unwrap().to_sat()
}

fn parse_fee_rate(s: &str) -> u64 {
    let s = s.trim();
    if s == "0" {
        return 0;
    }
    let (n, unit) = s.split_once(' ').unwrap();
    let n: u64 = n.parse().unwrap();
    match unit {
        "sat/kwu" => n,
        "sat/vb" | "sat/vB" => FeeRate::from_sat_per_vb(n).unwrap().to_sat_per_kwu(),
        _ => panic!("unknown fee rate unit"),
    }
}

fn parse_weight(s: &str) -> u64 {
    let s = s.trim();
    match s.split_once(' ') {
        None => s.parse().unwrap(),
        Some((n, "vb")) | Some((n, "vB")) => Weight::from_vb(n.parse().unwrap()).unwrap().to_wu(),
        Some((n, "wu")) => n.parse().unwrap(),
        _ => panic!("unknown weight unit"),
    }
}

fn fee(fee_rate: u64, weight: u64) -> u64 {
    FeeRate::from_sat_per_kwu(fee_rate).fee_wu(Weight::from_wu(weight)).unwrap().to_sat()
}

/// An output whose value is given.
fn from_absolute(s: &str) -> WeightedUtxo {
    let (v, w) = s.split_once('/').unwrap();
    WeightedUtxo { value: parse_amount(v), weight: parse_weight(w) }
}

/// An output whose effective value at `fee_rate` is given.
fn from_effective(s: &str, fee_rate: u64) -> WeightedUtxo {
    let (v, w) = s.split_once('/').unwrap();
    let weight = parse_weight(w);
    let value = parse_signed_amount(v) + fee(fee_rate, weight) as i64;
    WeightedUtxo { value: value as u64, weight }
}

struct TestBnB<'a> {
    target: &'a str,
    cost_of_change: &'a str,
    fee_rate: &'a str,
    lt_fee_rate: &'a str,
    utxo_effective_values: Vec<&'a str>,
    utxo_absolute_values: Vec<&'a str>,
    expected_selection: Option<Vec<&'a str>>,
    expected_iterations: u32,
}

impl TestBnB<'_> {
    fn check(&self) {
        let target = parse_amount(self.target);
        let cost_of_change = parse_amount(self.cost_of_change);
        let fee_rate = parse_fee_rate(self.fee_rate);
        let lt_fee_rate = parse_fee_rate(self.lt_fee_rate);

        let mut pool: Vec<WeightedUtxo> =
            self.utxo_absolute_values.iter().map(|s| from_absolute(s)).collect();
        pool.extend(self.utxo_effective_values.iter().map(|s| from_effective(s, fee_rate)));

        let result = select_coins_bnb(target, cost_of_change, fee_rate, lt_fee_rate, &pool);

        if let Some((iterations, inputs)) = result {
            assert_eq!(iterations, self.expected_iterations);
            let expected: Vec<WeightedUtxo> = self
                .expected_selection
                .clone()
                .unwrap()
                .iter()
                .map(|s| from_effective(s, fee_rate))
                .collect();
            let inputs: Vec<WeightedUtxo> = inputs.into_iter().copied().collect();
            assert_eq!(inputs, expected);
        } else {
            assert!(self.expected_selection.is_none());
            assert_eq!(self.expected_iterations, 0);
        }
    }
}

fn assert_coin_select(target_str: &str, expected_iterations: u32, expected_inputs_str: &[&str]) {
    let pool = vec!["1 cBTC/68 vb", "2 cBTC/68 vb", "3 cBTC/68 vb", "4 cBTC/68 vb"];
    let fmt_expected: Vec<String> =
        expected_inputs_str.iter().map(|u| format!("{}/68 vb", u)).collect();
    let expected: Vec<&str> = fmt_expected.iter().map(|s| &**s).collect();

    TestBnB {
        target: target_str,
        cost_of_change: "0",
        fee_rate: "0",
        lt_fee_rate: "0",
        utxo_effective_values: pool,
        utxo_absolute_values: vec![],
        expected_selection: Some(expected),
        expected_iterations,
    }
    .check();
}

fn zero_fee_pool(amounts: Vec<u64>) -> Vec<WeightedUtxo> {
    amounts.into_iter().map(|a| WeightedUtxo { value: a, weight: 0 }).collect()
}

#[test]
fn select_coins_bnb_one() { assert_coin_select("1 cBTC", 8, &["1 cBTC"]); }

#[test]
fn select_coins_bnb_three() { assert_coin_select("3 cBTC", 8, &["2 cBTC", "1 cBTC"]); }

#[test]
fn select_coins_bnb_four() { assert_coin_select("4 cBTC", 8, &["3 cBTC", "1 cBTC"]); }

#[test]
fn select_coins_bnb_five() { assert_coin_select("5 cBTC", 12, &["3 cBTC", "2 cBTC"]); }

#[test]
fn select_coins_bnb_six() { assert_coin_select("6 cBTC", 12, &["3 cBTC", "2 cBTC", "1 cBTC"]); }

#[test]
fn select_coins_bnb_seven() { assert_coin_select("7 cBTC", 8, &["4 cBTC", "2 cBTC", "1 cBTC"]); }

#[test]
fn select_coins_bnb_eight() { assert_coin_select("8 cBTC", 8, &["4 cBTC", "3 cBTC", "1 cBTC"]); }

#[test]
fn select_coins_bnb_nine() { assert_coin_select("9 cBTC", 6, &["4 cBTC", "3 cBTC", "2 cBTC"]); }

#[test]
fn select_coins_bnb_ten() {
    assert_coin_select("10 cBTC", 8, &["4 cBTC", "3 cBTC", "2 cBTC", "1 cBTC"]);
}

#[test]
#[should_panic]
fn select_coins_bnb_eleven_invalid_target_should_panic() {
    assert_coin_select("11 cBTC", 8, &["1 cBTC"]);
}

#[test]
#[should_panic]
fn select_coins_bnb_params_invalid_target_should_panic() {
    TestBnB {
        target: "11 cBTC",
        cost_of_change: "1 cBTC",
        fee_rate: "0",
        lt_fee_rate: "0",
        utxo_effective_values: vec!["1.5 cBTC/68 vb"],
        utxo_absolute_values: vec![],
        expected_selection: Some(vec!["1.5 cBTC/68 vb"]),
        expected_iterations: 2,
    }
    .check();
}

#[test]
fn select_coins_bnb_zero() {
    TestBnB {
        target: "0",
        cost_of_change: "0",
        fee_rate: "0",
        lt_fee_rate: "0",
        utxo_effective_values: vec!["1 cBTC/68 vb"],
        utxo_absolute_values: vec![],
        expected_selection: None,
        expected_iterations: 0,
    }
    .check();
}

#[test]
fn select_coins_bnb_cost_of_change() {
    TestBnB {
        target: "1 cBTC",
        cost_of_change: "1 cBTC",
        fee_rate: "0",
        lt_fee_rate: "0",
        utxo_effective_values: vec!["1.5 cBTC/68 vb"],
        utxo_absolute_values: vec![],
        expected_selection: Some(vec!["1.5 cBTC/68 vb"]),
        expected_iterations: 2,
    }
    .check();
}

#[test]
fn select_coins_bnb_effective_value() {
    TestBnB {
        target: "1 cBTC",
        cost_of_change: "0",
        fee_rate: "10 sat/kwu",
        lt_fee_rate: "10 sat/kwu",
        utxo_effective_values: vec![],
        utxo_absolute_values: vec!["1 cBTC/68 vb"],
        expected_selection: None,
        expected_iterations: 0,
    }
    .check();
}

#[test]
fn select_coins_bnb_skip_effective_negative_effective_value() {
    TestBnB {
        target: "1 cBTC",
        cost_of_change: "1 cBTC",
        fee_rate: "10 sat/kwu",
        lt_fee_rate: "10 sat/kwu",
        utxo_effective_values: vec!["1.5 cBTC/68 vb", "-1 sat/68 vb"],
        utxo_absolute_values: vec![],
        expected_selection: Some(vec!["1.5 cBTC/68 vb"]),
        expected_iterations: 2,
    }
    .check();
}

#[test]
fn select_coins_bnb_target_greater_than_value() {
    TestBnB {
        target: "11 cBTC",
        cost_of_change: "0",
        fee_rate: "10 sat/kwu",
        lt_fee_rate: "10 sat/kwu",
        utxo_effective_values: vec!["1 cBTC/68 vb", "2 sat/68 vb", "3 cBTC/68 vb", "4 cBTC/68 vb"],
        utxo_absolute_values: vec![],
        expected_selection: None,
        expected_iterations: 0,
    }
    .check();
}

#[test]
fn select_coins_bnb_consume_more_inputs_when_cheap() {
    TestBnB {
        target: "6 sats",
        cost_of_change: "0",
        fee_rate: "10 sat/kwu",
        lt_fee_rate: "20 sat/kwu",
        utxo_effective_values: vec!["1 sats/68 vb", "2 sats/68 vb", "3 sats/68 vb", "4 sats/68 vb"],
        utxo_absolute_values: vec![],
        expected_selection: Some(vec!["3 sats/68 vb", "2 sats/68 vb", "1 sats/68 vb"]),
        expected_iterations: 12,
    }
    .check();
}

#[test]
fn select_coins_bnb_consume_less_inputs_when_expensive() {
    TestBnB {
        target: "6 sats",
        cost_of_change: "0",
        fee_rate: "20 sat/kwu",
        lt_fee_rate: "10 sat/kwu",
        utxo_effective_values: vec!["1 sats/68 vb", "2 sats/68 vb", "3 sats/68 vb", "4 sats/68 vb"],
        utxo_absolute_values: vec![],
        expected_selection: Some(vec!["4 sats/68 vb", "2 sats/68 vb"]),
        expected_iterations: 12,
    }
    .check();
}

#[test]
fn select_coins_bnb_utxo_pool_sum_overflow() {
    TestBnB {
        target: "1 cBTC",
        cost_of_change: "0",
        fee_rate: "0",
        lt_fee_rate: "0",
        utxo_effective_values: vec!["1 sats/68 vb"],
        utxo_absolute_values: vec!["18446744073709551615 sats/68 vb"],
        expected_selection: None,
        expected_iterations: 0,
    }
    .check();
}

#[test]
fn select_coins_bnb_upper_bound_overflow() {
    TestBnB {
        target: "1 sats",
        cost_of_change: "18446744073709551615 sats",
        fee_rate: "0",
        lt_fee_rate: "0",
        utxo_effective_values: vec!["1 sats/68 vb"],
        utxo_absolute_values: vec![],
        expected_selection: None,
        expected_iterations: 0,
    }
    .check();
}

#[test]
fn select_coins_bnb_utxo_greater_than_max_money() {
    TestBnB {
        target: "1 sats",
        cost_of_change: "18141417255681066410 sats",
        fee_rate: "1 sat/kwu",
        lt_fee_rate: "0",
        utxo_effective_values: vec![],
        utxo_absolute_values: vec!["18446744073709551615 sats/68 vb"],
        expected_selection: None,
        expected_iterations: 0,
    }
    .check();
}

#[test]
fn select_coins_bnb_set_size_five() {
    TestBnB {
        target: "6 cBTC",
        cost_of_change: "0",
        fee_rate: "0",
        lt_fee_rate: "0",
        utxo_effective_values: vec![
            "3 cBTC/68 vb",
            "2.9 cBTC/68 vb",
            "2 cBTC/68 vb",
            "1.0 cBTC/68 vb",
            "1 cBTC/68 vb",
        ],
        utxo_absolute_values: vec![],
        expected_selection: Some(vec!["3 cBTC/68 vb", "2 cBTC/68 vb", "1 cBTC/68 vb"]),
        expected_iterations: 22,
    }
    .check();
}

#[test]
fn select_coins_bnb_set_size_seven() {
    TestBnB {
        target: "18 cBTC",
        cost_of_change: "50 sats",
        fee_rate: "0",
        lt_fee_rate: "0",
        utxo_effective_values: vec![
            "10 cBTC/68 vb",
            "7000005 sats/68 vb",
            "6000005 sats/68 vb",
            "6 cBTC/68 vb",
            "3 cBTC/68 vb",
            "2 cBTC/68 vb",
            "1000005 cBTC/68 vb",
        ],
        utxo_absolute_values: vec![],
        expected_selection: Some(vec!["10 cBTC/68 vb", "6 cBTC/68 vb", "2 cBTC/68 vb"]),
        expected_iterations: 44,
    }
    .check();
}

#[test]
fn select_coins_bnb_early_bail_optimization() {
    let mut utxos =
        vec!["7 cBTC/68 vb", "7 cBTC/68 vb", "7 cBTC/68 vb", "7 cBTC/68 vb", "2 cBTC/68 vb"];
    for _i in 0..50_000 {
        utxos.push("5 cBTC/68 vb");
    }

    TestBnB {
        target: "30 cBTC",
        cost_of_change: "5000 sats",
        fee_rate: "0",
        lt_fee_rate: "0",
        utxo_effective_values: utxos,
        utxo_absolute_values: vec![],
        expected_selection: Some(vec![
            "7 cBTC/68 vb",
            "7 cBTC/68 vb",
            "7 cBTC/68 vb",
            "7 cBTC/68 vb",
            "2 cBTC/68 vb",
        ]),
        expected_iterations: 100_000,
    }
    .check();
}

#[test]
fn select_coins_bnb_choose_light_utxos_when_fees_expensive() {
    TestBnB {
        target: "13 cBTC",
        cost_of_change: "359 sats",
        fee_rate: "25000 sat/vb",
        lt_fee_rate: "3000 sat/vb",
        utxo_effective_values: vec![
            "2 cBTC/68 vb",
            "3 cBTC/68 vb",
            "5 cBTC/68 vb",
            "6 cBTC/500 vb",
            "7 cBTC/500 vb",
            "10 cBTC/68 vb",
        ],
        utxo_absolute_values: vec![],
        expected_selection: Some(vec!["10 cBTC/68 vb", "3 cBTC/68 vb"]),
        expected_iterations: 14,
    }
    .check();
}

#[test]
fn select_coins_bnb_choose_heavy_utxos_when_fees_are_cheap() {
    TestBnB {
        target: "13 cBTC",
        cost_of_change: "359 sats",
        fee_rate: "3000 sat/vb",
        lt_fee_rate: "5000 sat/vb",
        utxo_effective_values: vec![
            "2 cBTC/68 vb",
            "3 cBTC/68 vb",
            "5 cBTC/68 vb",
            "6 cBTC/500 vb",
            "7 cBTC/500 vb",
            "10 cBTC/68 vb",
        ],
        utxo_absolute_values: vec![],
        expected_selection: Some(vec!["7 cBTC/500 vb", "6 cBTC/500 vb"]),
        expected_iterations: 28,
    }
    .check();
}

#[test]
fn select_coins_bnb_exhaust() {
    let base: u64 = 2;
    let alpha: Vec<u64> = (0..17u32).map(|i| base.pow(17 + i)).collect();
    let target: u64 = alpha.iter().sum();
    let beta: Vec<u64> = (0..17u32).map(|i| base.pow(17 + i) + base.pow(16 - i)).collect();
    let mut amts = Vec::new();
    for (a, b) in alpha.into_iter().zip(beta) {
        amts.push(a);
        amts.push(b);
    }
    let pool = zero_fee_pool(amts);

    let list = select_coins_bnb(target, 1, 0, 0, &pool);

    assert!(list.is_none());
}

#[test]
fn select_coins_bnb_exhaust_v2() {
    let base: u64 = 2;
    let mut target = 0;
    let mut amts = Vec::new();
    for i in 0..15u32 {
        let a = base.pow(15 + i);
        target += a;
        amts.push(a);
        amts.push(a + 2);
    }
    let pool = zero_fee_pool(amts);

    let list = select_coins_bnb(target, 1, 0, 0, &pool);

    assert!(list.is_none());
}

#[test]
fn select_coins_bnb_exhaust_with_result() {
    let base: u64 = 2;
    let mut target = 0;
    let mut amts = Vec::new();
    for i in 0..15u32 {
        let a = base.pow(15 + i);
        target += a;
        amts.push(a);
        amts.push(a + 2);
    }
    amts.push(target);
    let pool = zero_fee_pool(amts);

    let (iterations, utxos) = select_coins_bnb(target, 1, 0, 0, &pool).unwrap();

    assert_eq!(utxos.len(), 1);
    assert_eq!(utxos[0].value(), target);
    assert_eq!(100000, iterations);
}

#[test]
fn bnb_result_lies_in_window() {
    // Pool [4, 3, 2, 1] cBTC at zero fees: every target from 1 to 10 cBTC is met exactly.
    let pool = zero_fee_pool(vec![1_000_000, 2_000_000, 3_000_000, 4_000_000]);
    for t in 1..=10u64 {
        let target = t * 1_000_000;
        let (_, selected) = select_coins_bnb(target, 0, 0, 0, &pool).unwrap();
        let sum: u64 = selected.iter().map(|u| u.value()).sum();
        assert_eq!(sum, target);
    }
}

#[test]
fn bnb_is_deterministic() {
    let pool = zero_fee_pool(vec![1_000_000, 2_000_000, 3_000_000, 4_000_000, 2_000_000]);
    let a = select_coins_bnb(5_000_000, 10_000, 20, 10, &pool);
    let b = select_coins_bnb(5_000_000, 10_000, 20, 10, &pool);
    assert_eq!(a, b);
}

#[test]
fn bnb_empty_pool_has_no_solution() {
    let pool: Vec<WeightedUtxo> = vec![];
    assert!(select_coins_bnb(1, 0, 0, 0, &pool).is_none());
}
