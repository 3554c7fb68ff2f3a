use charge_matcher::matcher::match_charges;
use charge_matcher::types::{Charge, Order};

fn order(name: &str, value: u32) -> Order {
    Order::new(String::from(name), value)
}

fn charge(date: &str, value: u32) -> Charge {
    Charge::new(String::from(date), value)
}

fn plain_orders(values: &[u32]) -> Vec<Order> {
    values.iter().map(|v| order(&format!("o{}", v), *v)).collect()
}

fn plain_charges(values: &[u32]) -> Vec<Charge> {
    values.iter().map(|v| charge(&format!("c{}", v), *v)).collect()
}

fn amounts(solutions: &Vec<Vec<(Order, Vec<Charge>)>>) -> Vec<Vec<(u32, Vec<u32>)>> {
    solutions
        .iter()
        .map(|s| s.iter().map(|(o, cs)| (o.value(), cs.iter().map(|c| c.value()).collect())).collect())
        .collect()
}

fn labels(solutions: &Vec<Vec<(Order, Vec<Charge>)>>) -> Vec<Vec<(String, Vec<String>)>> {
    solutions
        .iter()
        .map(|s| {
            s.iter()
                .map(|(o, cs)| {
                    (o.name().to_string(), cs.iter().map(|c| c.date().to_string()).collect())
                })
                .collect()
        })
        .collect()
}

fn run(orders: &[u32], charges: &[u32]) -> Vec<Vec<(u32, Vec<u32>)>> {
    let orders = plain_orders(orders);
    let mut charges = plain_charges(charges);
    amounts(&match_charges(&orders, &mut charges))
}

#[test]
fn match_charges_to_orders() {
    assert_eq!(run(&[], &[]), Vec::<Vec<(u32, Vec<u32>)>>::new());
    assert_eq!(run(&[], &[1]), Vec::<Vec<(u32, Vec<u32>)>>::new());
    assert_eq!(run(&[2], &[1]), Vec::<Vec<(u32, Vec<u32>)>>::new());
    assert_eq!(run(&[1], &[1]), vec![vec![(1, vec![1])]]);
    assert_eq!(run(&[2], &[1, 1]), vec![vec![(2, vec![1, 1])]]);
    assert_eq!(run(&[1, 2], &[1, 2]), vec![vec![(1, vec![1]), (2, vec![2])]]);
    assert_eq!(
        run(&[2, 3], &[1, 1, 1, 2]),
        vec![
            vec![(2, vec![1, 1]), (3, vec![1, 2])],
            vec![(2, vec![2]), (3, vec![1, 1, 1])],
        ]
    );
}

#[test]
fn no_charges_give_no_solution() {
    let mut none: Vec<Charge> = Vec::new();
    assert!(match_charges(&[], &mut none).is_empty());
    assert!(match_charges(&[order("A", 0)], &mut none).is_empty());
    assert!(match_charges(&[order("A", 100), order("B", 0)], &mut none).is_empty());
}

#[test]
fn no_orders_leave_the_charges_unused() {
    let mut charges = vec![charge("x", 1)];
    assert!(match_charges(&[], &mut charges).is_empty());
}

#[test]
fn one_order_paid_by_one_charge() {
    let mut charges = vec![charge("x", 100)];
    let solutions = match_charges(&[order("A", 100)], &mut charges);
    assert_eq!(solutions, vec![vec![(order("A", 100), vec![charge("x", 100)])]]);
}

#[test]
fn one_order_paid_by_two_charges() {
    let mut charges = vec![charge("x", 100), charge("y", 100)];
    let solutions = match_charges(&[order("A", 200)], &mut charges);
    assert_eq!(
        solutions,
        vec![vec![(order("A", 200), vec![charge("x", 100), charge("y", 100)])]]
    );
}

#[test]
fn two_orders_paid_by_one_charge_each() {
    let mut charges = vec![charge("x", 100), charge("y", 200)];
    let solutions = match_charges(&[order("A", 100), order("B", 200)], &mut charges);
    assert_eq!(
        solutions,
        vec![vec![
            (order("A", 100), vec![charge("x", 100)]),
            (order("B", 200), vec![charge("y", 200)]),
        ]]
    );
}

#[test]
fn two_orders_with_two_allocations() {
    let mut charges =
        vec![charge("w", 100), charge("x", 100), charge("y", 100), charge("z", 200)];
    let orders = [order("A", 200), order("B", 300)];
    let solutions = match_charges(&orders, &mut charges);
    let by_label = labels(&solutions);
    let first = vec![
        (String::from("A"), vec![String::from("w"), String::from("x")]),
        (String::from("B"), vec![String::from("y"), String::from("z")]),
    ];
    let second = vec![
        (String::from("A"), vec![String::from("z")]),
        (String::from("B"), vec![String::from("w"), String::from("x"), String::from("y")]),
    ];
    assert!(by_label.contains(&first));
    assert!(by_label.contains(&second));
    // With four distinct charges, A can also take w and y, or x and y.
    assert_eq!(solutions.len(), 4);
    for solution in &by_label {
        let mut used: Vec<String> = solution.iter().flat_map(|(_, cs)| cs.clone()).collect();
        used.sort();
        assert_eq!(used, vec!["w", "x", "y", "z"]);
    }
}

#[test]
fn two_orders_with_two_allocations_of_like_charges() {
    let mut charges =
        vec![charge("c", 100), charge("c", 100), charge("c", 100), charge("z", 200)];
    let orders = [order("A", 200), order("B", 300)];
    let solutions = match_charges(&orders, &mut charges);
    assert_eq!(
        labels(&solutions),
        vec![
            vec![
                (String::from("A"), vec![String::from("c"), String::from("c")]),
                (String::from("B"), vec![String::from("c"), String::from("z")]),
            ],
            vec![
                (String::from("A"), vec![String::from("z")]),
                (String::from("B"), vec![String::from("c"), String::from("c"), String::from("c")]),
            ],
        ]
    );
}

#[test]
fn an_order_that_no_subset_pays_gives_no_solution() {
    let mut charges = vec![charge("x", 100)];
    assert!(match_charges(&[order("A", 50)], &mut charges).is_empty());
}

#[test]
fn leftover_charges_give_no_solution() {
    let mut charges = vec![charge("x", 100), charge("y", 5)];
    assert!(match_charges(&[order("A", 100)], &mut charges).is_empty());
}

#[test]
fn a_zero_order_claims_no_charge() {
    let mut charges = vec![charge("x", 100)];
    let solutions = match_charges(&[order("free", 0), order("A", 100)], &mut charges);
    assert_eq!(
        solutions,
        vec![vec![(order("free", 0), vec![]), (order("A", 100), vec![charge("x", 100)])]]
    );
}

#[test]
fn charges_are_left_in_canonical_order() {
    let mut charges = vec![charge("b", 200), charge("z", 100), charge("a", 200), charge("y", 100)];
    let _ = match_charges(&[order("A", 600)], &mut charges);
    assert_eq!(
        charges,
        vec![charge("y", 100), charge("z", 100), charge("a", 200), charge("b", 200)]
    );
}

#[test]
fn every_solution_uses_every_charge_once_and_pays_every_order() {
    let orders = plain_orders(&[3, 4, 5]);
    let mut charges = vec![
        charge("a", 1),
        charge("b", 2),
        charge("c", 2),
        charge("d", 3),
        charge("e", 4),
    ];
    let solutions = match_charges(&orders, &mut charges);
    assert!(!solutions.is_empty());
    for solution in &solutions {
        assert_eq!(solution.len(), orders.len());
        let mut used: Vec<Charge> = Vec::new();
        for (i, (o, cs)) in solution.iter().enumerate() {
            assert_eq!(o, &orders[i]);
            assert_eq!(cs.iter().map(|c| c.value()).sum::<u32>(), o.value());
            used.extend(cs.iter().cloned());
        }
        used.sort_by(|a, b| (a.value(), a.date()).cmp(&(b.value(), b.date())));
        assert_eq!(used, charges);
    }
    assert!(solutions.windows(2).all(|w| w[0] != w[1]));
}

#[test]
fn matching_twice_gives_the_same_solutions_in_the_same_order() {
    let orders = plain_orders(&[2, 3, 4]);
    let mut first = plain_charges(&[1, 1, 1, 2, 2, 2]);
    let mut second = plain_charges(&[2, 1, 2, 1, 2, 1]);
    let one = match_charges(&orders, &mut first);
    let two = match_charges(&orders, &mut second);
    let again = match_charges(&orders, &mut first);
    assert!(!one.is_empty());
    assert_eq!(one, two);
    assert_eq!(one, again);
}

#[test]
fn orders_of_equal_amount_are_told_apart_by_label() {
    let mut charges = vec![charge("x", 100), charge("y", 100)];
    let solutions = match_charges(&[order("A", 100), order("B", 100)], &mut charges);
    assert_eq!(
        solutions,
        vec![
            vec![
                (order("A", 100), vec![charge("x", 100)]),
                (order("B", 100), vec![charge("y", 100)]),
            ],
            vec![
                (order("A", 100), vec![charge("y", 100)]),
                (order("B", 100), vec![charge("x", 100)]),
            ],
        ]
    );
}

#[test]
fn a_charge_of_nothing_goes_to_an_order_that_owes_something() {
    let mut charges = vec![charge("x", 100), charge("z", 0)];
    let solutions = match_charges(&[order("A", 100)], &mut charges);
    assert_eq!(
        solutions,
        vec![vec![(order("A", 100), vec![charge("z", 0), charge("x", 100)])]]
    );
}

#[test]
fn a_charge_of_nothing_is_left_over_by_orders_that_owe_nothing() {
    let mut charges = vec![charge("z", 0)];
    assert!(match_charges(&[order("free", 0)], &mut charges).is_empty());
}
