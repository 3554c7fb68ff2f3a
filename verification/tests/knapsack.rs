use charge_matcher::matcher::knapsack;
use charge_matcher::types::{Charge, Order};

fn order(value: u32) -> Order {
    Order::new(String::from("order"), value)
}

fn charges(values: &[u32]) -> Vec<Charge> {
    values.iter().map(|v| Charge::new(format!("c{}", v), *v)).collect()
}

fn values(taken: Option<Vec<Charge>>) -> Option<Vec<u32>> {
    taken.map(|cs| cs.iter().map(|c| c.value()).collect())
}

fn sorted_values(taken: Option<Vec<Charge>>) -> Option<Vec<u32>> {
    values(taken).map(|mut vs| {
        vs.sort();
        vs
    })
}

#[test]
fn knapsack_zero_order_takes_nothing() {
    assert_eq!(values(knapsack(order(0), &charges(&[]))), Some(vec![]));
    assert_eq!(values(knapsack(order(0), &charges(&[1]))), Some(vec![]));
}

#[test]
fn knapsack_fails_without_charges() {
    assert_eq!(values(knapsack(order(1), &charges(&[]))), None);
}

#[test]
fn knapsack_finds_exact_fits_in_charges() {
    assert_eq!(sorted_values(knapsack(order(0), &charges(&[]))), Some(vec![]));
    assert_eq!(sorted_values(knapsack(order(0), &charges(&[1]))), Some(vec![]));
    assert_eq!(sorted_values(knapsack(order(1), &charges(&[]))), None);
    assert_eq!(sorted_values(knapsack(order(1), &charges(&[1]))), Some(vec![1]));
    assert_eq!(sorted_values(knapsack(order(1), &charges(&[1, 2]))), Some(vec![1]));
    assert_eq!(sorted_values(knapsack(order(1), &charges(&[2]))), None);
    assert_eq!(
        sorted_values(knapsack(order(7), &charges(&[1, 3, 1, 5, 2, 1]))),
        Some(vec![1, 1, 2, 3])
    );
}

#[test]
fn knapsack_hands_the_charges_out_in_the_order_met() {
    assert_eq!(
        values(knapsack(order(7), &charges(&[1, 3, 1, 5, 2, 1]))),
        Some(vec![1, 3, 1, 2])
    );
    assert_eq!(values(knapsack(order(3), &charges(&[2, 5, 1]))), Some(vec![2, 1]));
}

#[test]
fn knapsack_follows_one_path_only() {
    assert_eq!(values(knapsack(order(5), &charges(&[2, 5]))), None);
    assert_eq!(values(knapsack(order(5), &charges(&[5, 2]))), Some(vec![5]));
}
