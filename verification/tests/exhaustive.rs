use charge_matcher::matcher::exhaustive;
use charge_matcher::types::{Charge, Order};

fn order(value: u32) -> Order {
    Order::new(String::from("order"), value)
}

fn charges(values: &[u32]) -> Vec<Charge> {
    values.iter().map(|v| Charge::new(format!("c{}", v), *v)).collect()
}

fn values(fits: Vec<Vec<Charge>>) -> Vec<Vec<u32>> {
    fits.iter().map(|cs| cs.iter().map(|c| c.value()).collect()).collect()
}

#[test]
fn exhaustive_zero_order_has_the_empty_fit_only() {
    assert_eq!(values(exhaustive(order(0), &charges(&[]))), vec![Vec::<u32>::new()]);
    assert_eq!(values(exhaustive(order(0), &charges(&[1, 2]))), vec![Vec::<u32>::new()]);
    assert_eq!(values(exhaustive(order(0), &charges(&[0, 0]))), vec![Vec::<u32>::new()]);
}

#[test]
fn exhaustive_finds_nothing_without_charges() {
    assert_eq!(values(exhaustive(order(1), &charges(&[]))), Vec::<Vec<u32>>::new());
}

#[test]
fn exhaustive_finds_all_exact_fits() {
    assert_eq!(values(exhaustive(order(1), &charges(&[1]))), vec![vec![1]]);
    assert_eq!(values(exhaustive(order(1), &charges(&[1, 1]))), vec![vec![1]]);
    assert_eq!(values(exhaustive(order(2), &charges(&[1, 2, 1]))), vec![vec![1, 1], vec![2]]);
    assert_eq!(
        values(exhaustive(order(7), &charges(&[1, 3, 1, 5, 2, 1]))),
        vec![vec![1, 1, 2, 3], vec![1, 1, 5], vec![2, 5]]
    );
}

#[test]
fn exhaustive_finds_nothing_when_no_subset_sums_to_the_order() {
    assert_eq!(values(exhaustive(order(50), &charges(&[100]))), Vec::<Vec<u32>>::new());
    assert_eq!(values(exhaustive(order(4), &charges(&[1, 2, 5]))), Vec::<Vec<u32>>::new());
}

#[test]
fn exhaustive_keeps_charges_of_equal_amount_apart() {
    let pool = vec![
        Charge::new(String::from("b"), 100),
        Charge::new(String::from("a"), 100),
    ];
    let fits = exhaustive(order(100), &pool);
    assert_eq!(
        fits,
        vec![
            vec![Charge::new(String::from("a"), 100)],
            vec![Charge::new(String::from("b"), 100)],
        ]
    );
}

#[test]
fn exhaustive_does_not_depend_on_the_order_of_the_charges() {
    let one = exhaustive(order(1), &charges(&[1, 0]));
    let other = exhaustive(order(1), &charges(&[0, 1]));
    assert_eq!(values(one.clone()), vec![vec![0, 1], vec![1]]);
    assert_eq!(one, other);
}

#[test]
fn exhaustive_fits_are_canonical_and_sum_to_the_order() {
    let pool = charges(&[5, 1, 4, 2, 3, 3]);
    let fits = exhaustive(order(6), &pool);
    assert!(!fits.is_empty());
    for fit in &fits {
        assert_eq!(fit.iter().map(|c| c.value()).sum::<u32>(), 6);
        assert!(fit.windows(2).all(|w| (w[0].value(), w[0].date()) <= (w[1].value(), w[1].date())));
    }
    assert!(fits.windows(2).all(|w| w[0] != w[1]));
}
