use nqg::fixed_point::{mul_div_floor, FixedPointError, DECIMALS};
use nqg::neural_governance::{
    aggregate_result, combine, fold_values, weigh_neuron_result, Layer, LayerAggregator, Neuron,
};
use nqg::types::VotingSystemError;

fn values(list: &[(&str, i128)]) -> Vec<(String, i128)> {
    list.iter().map(|(u, v)| (u.to_string(), *v)).collect()
}

fn value_for(list: &[(String, i128)], user: &str) -> Option<i128> {
    list.iter().find(|(u, _)| u == user).map(|(_, v)| *v)
}

#[test]
fn mul_div_floor_rounds_down_for_every_sign() {
    assert_eq!(mul_div_floor(-7, 3, 2), Ok(-11));
    assert_eq!(mul_div_floor(7, 3, 2), Ok(10));
    assert_eq!(mul_div_floor(7, -3, 2), Ok(-11));
    assert_eq!(mul_div_floor(7, 3, -2), Ok(-11));
    assert_eq!(mul_div_floor(-7, -3, 2), Ok(10));
    assert_eq!(mul_div_floor(-7, 3, -2), Ok(10));
    assert_eq!(mul_div_floor(7, -3, -2), Ok(10));
    assert_eq!(mul_div_floor(-7, -3, -2), Ok(-11));
    assert_eq!(mul_div_floor(6, 2, 3), Ok(4));
    assert_eq!(mul_div_floor(-6, 2, 3), Ok(-4));
    assert_eq!(mul_div_floor(0, 5, -3), Ok(0));
}

#[test]
fn mul_div_floor_matches_exact_floor_on_many_triples() {
    let samples: [i128; 9] = [-1000, -37, -7, -1, 0, 1, 5, 64, 999];
    for &x in &samples {
        for &y in &samples {
            for &z in &samples {
                if z == 0 {
                    continue;
                }
                let expected = (x * y).div_euclid(z)
                    - if z < 0 && (x * y).rem_euclid(z) != 0 { 1 } else { 0 };
                let p = x * y;
                let floor = if (p % z != 0) && ((p < 0) != (z < 0)) { p / z - 1 } else { p / z };
                assert_eq!(floor, expected);
                assert_eq!(mul_div_floor(x, y, z), Ok(floor));
            }
        }
    }
}

#[test]
fn mul_div_floor_division_by_zero() {
    assert_eq!(mul_div_floor(1, 2, 0), Err(FixedPointError::DivisionByZero));
}

#[test]
fn mul_div_floor_keeps_a_wide_intermediate() {
    // 100e18 * 2e18 does not fit in i128, the quotient does.
    assert_eq!(
        mul_div_floor(100 * DECIMALS, 2 * DECIMALS, DECIMALS),
        Ok(200 * DECIMALS)
    );
    assert_eq!(
        mul_div_floor(-100 * DECIMALS, 2 * DECIMALS + 1, DECIMALS),
        Ok(-200 * DECIMALS - 100)
    );
    assert_eq!(mul_div_floor(i128::MAX, i128::MAX, i128::MAX), Ok(i128::MAX));
    assert_eq!(mul_div_floor(i128::MIN, 1, 1), Ok(i128::MIN));
    assert_eq!(mul_div_floor(i128::MIN, i128::MAX, i128::MAX), Ok(i128::MIN));
    assert_eq!(mul_div_floor(i128::MIN, -1, 1), Err(FixedPointError::Overflow));
    assert_eq!(mul_div_floor(i128::MAX, 2, 1), Err(FixedPointError::Overflow));
    assert_eq!(mul_div_floor(i128::MAX, i128::MAX, 3), Err(FixedPointError::Overflow));
    assert_eq!(mul_div_floor(i128::MAX, -i128::MAX, i128::MAX - 1), Err(FixedPointError::Overflow));
    // -(2^127 - 1)^2 / 2^127 lies just below -(2^127 - 2), so its floor is -(2^127 - 1)
    assert_eq!(mul_div_floor(i128::MAX, i128::MAX, i128::MIN), Ok(-i128::MAX));
}

#[test]
fn creating_neuron() {
    let name = "abc".to_string();
    let weight: i128 = 100;
    let neuron = Neuron::create(name.clone(), weight);
    assert_eq!(neuron.name, name);
    assert_eq!(neuron.weight, weight);
}

#[test]
fn creating_layer() {
    let layer = Layer::create(
        vec![Neuron::create("neuron1".to_string(), 1)],
        LayerAggregator::Sum,
    );
    assert_eq!(layer.neurons.len(), 1);
    assert_eq!(layer.neurons[0].name, "neuron1");
    assert_eq!(layer.aggregator, LayerAggregator::Sum);
}

#[test]
fn aggregate_empty() {
    let result = vec![("user1".to_string(), vec![])];
    let aggregated = aggregate_result(&result, LayerAggregator::Product, 1).unwrap();
    assert_eq!(value_for(&aggregated, "user1"), Some(0));
}

#[test]
fn aggregate_empty_sum_is_zero() {
    let result = vec![("user1".to_string(), vec![])];
    let aggregated = aggregate_result(&result, LayerAggregator::Sum, DECIMALS).unwrap();
    assert_eq!(value_for(&aggregated, "user1"), Some(0));
}

#[test]
fn aggregate_sum() {
    let result = vec![
        ("user1".to_string(), vec![1, 2]),
        ("user2".to_string(), vec![3, 4]),
    ];
    let aggregated = aggregate_result(&result, LayerAggregator::Sum, 1).unwrap();
    assert_eq!(value_for(&aggregated, "user1"), Some(3));
    assert_eq!(value_for(&aggregated, "user2"), Some(7));
}

#[test]
fn aggregate_product() {
    let result = vec![
        ("user1".to_string(), vec![1, 2]),
        ("user2".to_string(), vec![3, 4]),
    ];
    let aggregated = aggregate_result(&result, LayerAggregator::Product, 1).unwrap();
    assert_eq!(value_for(&aggregated, "user1"), Some(2));
    assert_eq!(value_for(&aggregated, "user2"), Some(12));
}

#[test]
fn product_rounds_down_after_each_step() {
    // 1.5 * 1.5 = 2.25, then * 1.5 = 3.375 with scale 10
    assert_eq!(fold_values(&vec![15, 15, 15], LayerAggregator::Product, 10), Ok(33));
    // the order of the factors matters under truncation
    assert_eq!(fold_values(&vec![9, 9, 2], LayerAggregator::Product, 10), Ok(1));
    assert_eq!(fold_values(&vec![2, 9, 9], LayerAggregator::Product, 10), Ok(0));
}

#[test]
fn fold_errors() {
    assert_eq!(
        fold_values(&vec![i128::MAX, 1], LayerAggregator::Sum, 1),
        Err(VotingSystemError::ArithmeticOverflow)
    );
    assert_eq!(
        fold_values(&vec![1, 1], LayerAggregator::Product, 0),
        Err(VotingSystemError::DivisionByZero)
    );
    assert_eq!(fold_values(&vec![5], LayerAggregator::Product, 0), Ok(5));
}

#[test]
fn weigh_scales_by_weight() {
    let r = values(&[("a", 100 * DECIMALS), ("b", -3)]);
    let w = weigh_neuron_result(DECIMALS / 2, &r).unwrap();
    assert_eq!(w, values(&[("a", 50 * DECIMALS), ("b", -2)]));
    assert_eq!(
        weigh_neuron_result(i128::MAX, &values(&[("a", i128::MAX)])),
        Err(VotingSystemError::ArithmeticOverflow)
    );
}

#[test]
fn combine_leaves_out_unreported_users() {
    let maps = vec![values(&[("a", 1), ("b", 2)]), values(&[("b", 3), ("c", 4)])];
    let out = combine(&maps, LayerAggregator::Sum, DECIMALS).unwrap();
    assert_eq!(out.len(), 3);
    assert_eq!(value_for(&out, "a"), Some(1));
    assert_eq!(value_for(&out, "b"), Some(5));
    assert_eq!(value_for(&out, "c"), Some(4));
    assert_eq!(value_for(&out, "d"), None);
}

#[test]
fn sum_of_weights_two_and_one() {
    let r: i128 = 7 * DECIMALS + 3;
    let a = weigh_neuron_result(2 * DECIMALS, &values(&[("u", r)])).unwrap();
    let b = weigh_neuron_result(DECIMALS, &values(&[("u", r)])).unwrap();
    let out = combine(&vec![a, b], LayerAggregator::Sum, DECIMALS).unwrap();
    assert_eq!(value_for(&out, "u"), Some(3 * r));
}
