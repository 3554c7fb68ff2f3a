use charge_matcher::text;
use charge_matcher::types::{Charge, Order};

#[test]
fn write_pads_the_hundredths() {
    assert_eq!(text::write("rent", 1099), "rent: 10.99");
    assert_eq!(text::write("tea", 205), "tea: 2.05");
    assert_eq!(text::write("gum", 7), "gum: 0.07");
    assert_eq!(text::write("", 0), ": 0.00");
}

#[test]
fn write_takes_the_largest_amount() {
    assert_eq!(text::write("all", u32::MAX), "all: 42949672.95");
}

#[test]
fn items_are_written_with_their_label() {
    assert_eq!(Order::new(String::from("book"), 1250).to_text(), "book: 12.50");
    assert_eq!(Charge::new(String::from("2024-01-05"), 100).to_text(), "2024-01-05: 1.00");
}
