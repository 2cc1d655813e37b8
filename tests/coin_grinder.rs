use std::str::FromStr;

use bitcoin::{Amount, FeeRate, Weight};
use bitcoin_coin_selection::coin_grinder::{
    build_lookahead, build_min_tail_weight, calc_effective_values, select_coins,
};
use bitcoin_coin_selection::WeightedUtxo;

fn parse_amount(s: &str) -> u64 {
    let s = s.trim();
    if s == "0" {
        return 0;
    }
    if let Some(n) = s.strip_suffix(" sats").or_else(|| s.strip_suffix(" sat")) {
        if let Ok(v) = n.parse::<u64>() {
            return v;
        }
    }
    Amount::from_str(s).unwrap().to_sat()
}

fn parse_fee_rate(s: &str) -> u64 {
    let s = s.trim();
    if s == "0" {
        return 0;
    }
    let (n, unit) = s.split_once(' ').unwrap();
    let n: u64 = n.parse().unwrap();
    match unit {
        "sat/kwu" => n,
        "sat/vb" | "sat/vB" => FeeRate::from_sat_per_vb(n).unwrap().to_sat_per_kwu(),
        _ => panic!("unknown fee rate unit"),
    }
}

fn parse_weight(s: &str) -> u64 {
    let s = s.trim();
    match s.split_once(' ') {
        None => s.parse().unwrap(),
        Some((n, "vb")) | Some((n, "vB")) => Weight::from_vb(n.parse().unwrap()).unwrap().to_wu(),
        Some((n, "wu")) => n.parse().unwrap(),
        _ => panic!("unknown weight unit"),
    }
}

fn build_pool(utxos: &[&str]) -> Vec<WeightedUtxo> {
    utxos
        .iter()
        .map(|s| {
            let (v, w) = s.split_once('/').unwrap();
            WeightedUtxo { value: parse_amount(v), weight: parse_weight(w) }
        })
        .collect()
}

struct TestCoinGrinder<'a> {
    target: &'a str,
    change_target: &'a str,
    max_weight: &'a str,
    fee_rate: &'a str,
    weighted_utxos: &'a [&'a str],
    expected_utxos: Option<&'a [&'a str]>,
    expected_iterations: u32,
}

impl TestCoinGrinder<'_> {
    fn check(&self) {
        let fee_rate = parse_fee_rate(self.fee_rate);
        let target = parse_amount(self.target);
        let change_target = parse_amount(self.change_target);
        let max_weight = parse_weight(self.max_weight);
        let pool = build_pool(self.weighted_utxos);

        let result = select_coins(target, change_target, max_weight, fee_rate, &pool);

        if self.expected_utxos.is_none() {
            assert!(result.is_none());
        } else {
            let (iteration_count, inputs) = result.unwrap();
            assert_eq!(iteration_count, self.expected_iterations);
            let expected: Vec<u64> =
                self.expected_utxos.unwrap().iter().map(|s| parse_amount(s)).collect();
            let values: Vec<u64> = inputs.iter().map(|u| u.value()).collect();
            assert_eq!(values, expected);
        }
    }
}

#[test]
fn min_tail_weight() {
    let weighted_utxos = &["29 sats/36 wu", "19 sats/40 wu", "11 sats/44 wu"];
    let pool = build_pool(weighted_utxos);
    let eff_values = calc_effective_values(&pool, 0);
    let weights: Vec<u64> = eff_values.iter().map(|(_, i)| pool[*i].weight()).collect();
    let min_tail_weight = build_min_tail_weight(&weights);

    let expect: Vec<u64> = vec![40u64, 44u64, 18446744073709551615u64];
    assert_eq!(min_tail_weight, expect);
}

#[test]
fn lookahead() {
    let weighted_utxos = vec!["10 sats/8 wu", "7 sats/4 wu", "5 sats/4 wu", "4 sats/8 wu"];
    let pool = build_pool(&weighted_utxos);
    let eff_values = calc_effective_values(&pool, 0);
    let effs: Vec<u64> = eff_values.iter().map(|(e, _)| *e).collect();
    let available_value = parse_amount("26 sats");
    let lookahead = build_lookahead(&effs, available_value);

    let expect: Vec<u64> =
        ["16 sats", "9 sats", "4 sats", "0 sats"].iter().map(|s| parse_amount(s)).collect();
    assert_eq!(lookahead, expect);
}

#[test]
fn example_solution() {
    TestCoinGrinder {
        target: "11 sats",
        change_target: "0",
        max_weight: "100",
        fee_rate: "0",
        weighted_utxos: &["10 sats/8 wu", "7 sats/4 wu", "5 sats/4 wu", "4 sats/8 wu"],
        expected_utxos: Some(&["7 sats", "5 sats"]),
        expected_iterations: 8,
    }
    .check();
}

#[test]
fn insufficient_funds() {
    TestCoinGrinder {
        target: "49.5 BTC",
        change_target: "1000000 sats",
        max_weight: "10000",
        fee_rate: "0",
        weighted_utxos: &["1 BTC/0", "2 BTC/0"],
        expected_utxos: None,
        expected_iterations: 0,
    }
    .check();
}

#[test]
fn max_weight_exceeded() {
    let mut wu = Vec::new();
    for _i in 0..10 {
        wu.push("1 BTC/272 wu");
        wu.push("2 BTC/272 wu");
    }

    TestCoinGrinder {
        target: "29.5 BTC",
        change_target: "1000000 sats",
        max_weight: "3000",
        fee_rate: "5 sat/vB",
        weighted_utxos: &wu[..],
        expected_utxos: None,
        expected_iterations: 0,
    }
    .check();
}

#[test]
fn max_weight_with_result() {
    let mut wu = Vec::new();
    let mut expected = Vec::new();

    for _i in 0..60 {
        wu.push("0.33 BTC/272 wu");
    }
    for _i in 0..10 {
        wu.push("2 BTC/272 wu");
    }

    for _i in 0..10 {
        expected.push("2 BTC");
    }
    for _i in 0..17 {
        expected.push("0.33 BTC");
    }

    TestCoinGrinder {
        target: "25.33 BTC",
        change_target: "1000000 sats",
        max_weight: "10000",
        fee_rate: "5 sat/vB",
        weighted_utxos: &wu[..],
        expected_utxos: Some(&expected),
        expected_iterations: 100000,
    }
    .check();
}

#[test]
fn select_lighter_utxos() {
    TestCoinGrinder {
        target: "1.9 BTC",
        change_target: "1000000 sats",
        max_weight: "400000",
        fee_rate: "5 sat/vB",
        weighted_utxos: &["2 BTC/592 wu", "1 BTC/272 wu", "1 BTC/272 wu"],
        expected_utxos: Some(&["1 BTC", "1 BTC"]),
        expected_iterations: 4,
    }
    .check();
}

#[test]
fn select_best_weight() {
    let wu = &[
        "1 BTC/600 wu",
        "2 BTC/1000 wu",
        "3 BTC/1400 wu",
        "4 BTC/600 wu",
        "5 BTC/1000 wu",
        "6 BTC/1400 wu",
        "7 BTC/600 wu",
        "8 BTC/1000 wu",
        "9 BTC/1400 wu",
        "10 BTC/600 wu",
        "11 BTC/1000 wu",
        "12 BTC/1400 wu",
        "13 BTC/600 wu",
        "14 BTC/1000 wu",
        "15 BTC/1400 wu",
    ];

    TestCoinGrinder {
        target: "30 BTC",
        change_target: "1000000 sats",
        max_weight: "400000",
        fee_rate: "5 sat/vB",
        weighted_utxos: wu,
        expected_utxos: Some(&["14 BTC", "13 BTC", "4 BTC"]),
        expected_iterations: 218,
    }
    .check();
}

#[test]
fn lightest_among_many_clones() {
    let mut wu = vec!["4 BTC/400 wu", "3 BTC/400 wu", "2 BTC/400 wu", "1 BTC/400 wu"];

    for _i in 0..100 {
        wu.push("8 BTC/4000 wu");
        wu.push("7 BTC/3200 wu");
        wu.push("6 BTC/2400 wu");
        wu.push("5 BTC/1600 wu");
    }

    TestCoinGrinder {
        target: "989999999 sats",
        change_target: "1000000 sats",
        max_weight: "400000",
        fee_rate: "5 sat/vB",
        weighted_utxos: &wu[..],
        expected_utxos: Some(&["4 BTC", "3 BTC", "2 BTC", "1 BTC"]),
        expected_iterations: 82307,
    }
    .check();
}

#[test]
fn skip_tiny_inputs() {
    let mut wu = vec!["1.8 BTC/10000 wu", "1 BTC/4000 wu", "1 BTC/4000 wu"];
    let mut tiny = vec![];
    for i in 0..100 {
        tiny.push(0.01 * 100000000_f64 + i as f64);
    }
    let tiny: Vec<String> = tiny.iter().map(|a| format!("{} sats/440 wu", a)).collect();
    let mut tiny: Vec<&str> = tiny.iter().map(|s| s as &str).collect();
    wu.append(&mut tiny);

    TestCoinGrinder {
        target: "1.9 BTC",
        change_target: "1000000 sats",
        max_weight: "400000",
        fee_rate: "5 sat/vB",
        weighted_utxos: &wu[..],
        expected_utxos: Some(&["1.8 BTC", "1 BTC"]),
        expected_iterations: 100000,
    }
    .check();
}

#[test]
fn cg_zero_target_has_no_solution() {
    let pool = build_pool(&["10 sats/8 wu"]);
    assert!(select_coins(0, 0, 100, 0, &pool).is_none());
}

#[test]
fn cg_total_target_overflow_has_no_solution() {
    let pool = build_pool(&["10 sats/8 wu"]);
    assert!(select_coins(1, u64::MAX, 100, 0, &pool).is_none());
}

#[test]
fn cg_result_meets_target_within_weight() {
    let pool = build_pool(&["10 sats/8 wu", "7 sats/4 wu", "5 sats/4 wu", "4 sats/8 wu"]);
    let (_, selected) = select_coins(11, 0, 100, 0, &pool).unwrap();
    let value: u64 = selected.iter().map(|u| u.value()).sum();
    let weight: u64 = selected.iter().map(|u| u.weight()).sum();
    assert!(value >= 11);
    assert!(weight <= 100);
    assert_eq!(weight, 8);
}

#[test]
fn cg_is_deterministic() {
    let pool = build_pool(&["10 sats/8 wu", "7 sats/4 wu", "5 sats/4 wu", "4 sats/8 wu"]);
    assert_eq!(select_coins(11, 1, 100, 0, &pool), select_coins(11, 1, 100, 0, &pool));
}

#[test]
fn calc_effective_values_drops_non_positive() {
    // At 10 sat/kwu a 1000 wu spend costs 10 sat.
    let pool = vec![
        WeightedUtxo { value: 30, weight: 1000 },
        WeightedUtxo { value: 10, weight: 1000 },
        WeightedUtxo { value: 11, weight: 1000 },
    ];
    assert_eq!(calc_effective_values(&pool, 10), vec![(20, 0), (1, 2)]);
}

#[test]
fn min_tail_weight_of_empty_and_single() {
    assert_eq!(build_min_tail_weight(&vec![]), Vec::<u64>::new());
    assert_eq!(build_min_tail_weight(&vec![7]), vec![u64::MAX]);
}
