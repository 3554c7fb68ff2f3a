use charge_matcher::sorting::{insert_solution, insert_subset, sort_charges};
use charge_matcher::types::{Charge, Order};

fn order(name: &str, value: u32) -> Order {
    Order::new(String::from(name), value)
}

fn charge(date: &str, value: u32) -> Charge {
    Charge::new(String::from(date), value)
}

#[test]
fn charges_sort_by_amount_then_label() {
    let mut charges = vec![
        charge("b", 200),
        charge("z", 100),
        charge("a", 200),
        charge("y", 100),
        charge("a", 200),
        charge("m", 0),
    ];
    sort_charges(&mut charges);
    assert_eq!(
        charges,
        vec![
            charge("m", 0),
            charge("y", 100),
            charge("z", 100),
            charge("a", 200),
            charge("a", 200),
            charge("b", 200),
        ]
    );
}

#[test]
fn sorting_nothing_gives_nothing() {
    let mut charges: Vec<Charge> = vec![];
    sort_charges(&mut charges);
    assert!(charges.is_empty());
}

#[test]
fn sorted_charges_stay_as_they_are() {
    let mut charges = vec![charge("a", 1), charge("b", 1), charge("a", 2)];
    let before = charges.clone();
    sort_charges(&mut charges);
    assert_eq!(charges, before);
}

#[test]
fn a_subset_is_put_at_its_place_once() {
    let mut list: Vec<Vec<Charge>> = vec![];
    insert_subset(&mut list, vec![charge("z", 2)]);
    insert_subset(&mut list, vec![charge("x", 1), charge("y", 1)]);
    insert_subset(&mut list, vec![]);
    insert_subset(&mut list, vec![charge("z", 2)]);
    insert_subset(&mut list, vec![charge("x", 1), charge("z", 1)]);
    assert_eq!(
        list,
        vec![
            vec![],
            vec![charge("x", 1), charge("y", 1)],
            vec![charge("x", 1), charge("z", 1)],
            vec![charge("z", 2)],
        ]
    );
}

#[test]
fn a_solution_is_put_at_its_place_once() {
    let first = vec![(order("A", 2), vec![charge("x", 1), charge("y", 1)])];
    let second = vec![(order("A", 2), vec![charge("z", 2)])];
    let mut list: Vec<Vec<(Order, Vec<Charge>)>> = vec![];
    insert_solution(&mut list, second.clone());
    insert_solution(&mut list, first.clone());
    insert_solution(&mut list, second.clone());
    assert_eq!(list, vec![first, second]);
}
