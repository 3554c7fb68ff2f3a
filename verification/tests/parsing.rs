use charge_matcher::text::{item_from_groups, parse, parse_number, ParseError};

fn groups(whole: &str, id: &str, units: &str, hundredths: &str) -> Option<Vec<Option<String>>> {
    Some(vec![
        Some(String::from(whole)),
        Some(String::from(id)),
        Some(String::from(units)),
        Some(String::from(hundredths)),
    ])
}

#[test]
fn parse_reads_label_and_cents() {
    assert_eq!(parse("rent: 10.99"), Ok((String::from("rent"), 1099)));
    assert_eq!(parse("tea: 2.05"), Ok((String::from("tea"), 205)));
    assert_eq!(parse("gum: 0.07"), Ok((String::from("gum"), 7)));
    assert_eq!(parse("2024-01-05: 1.00"), Ok((String::from("2024-01-05"), 100)));
}

#[test]
fn parse_drops_blanks_around_the_item() {
    assert_eq!(parse("  rent: 10.99  "), Ok((String::from("rent"), 1099)));
    assert_eq!(parse("\trent: 10.99\n"), Ok((String::from("rent"), 1099)));
}

#[test]
fn parse_keeps_colons_inside_the_label() {
    assert_eq!(parse("a: b: 1.50"), Ok((String::from("a: b"), 150)));
    assert_eq!(parse(": 1.50"), Ok((String::new(), 150)));
}

#[test]
fn parse_asks_for_a_point_between_units_and_hundredths() {
    assert_eq!(parse("rent: 10,99"), Err(ParseError::InvalidItem));
    assert_eq!(parse("rent: 1099"), Err(ParseError::InvalidItem));
    assert_eq!(parse("A: 1234"), Err(ParseError::InvalidItem));
    assert_eq!(parse("rent: 10 99"), Err(ParseError::InvalidItem));
    assert_eq!(parse("rent: 10:99"), Err(ParseError::InvalidItem));
    assert_eq!(parse("rent: 10..99"), Err(ParseError::InvalidItem));
    assert_eq!(parse("rent: 10.99"), Ok((String::from("rent"), 1099)));
}

#[test]
fn parse_takes_the_largest_amount() {
    assert_eq!(parse("all: 42949672.95"), Ok((String::from("all"), u32::MAX)));
}

#[test]
fn parse_rejects_what_is_no_item() {
    assert_eq!(parse(""), Err(ParseError::InvalidItem));
    assert_eq!(parse("rent"), Err(ParseError::InvalidItem));
    assert_eq!(parse("rent: 10"), Err(ParseError::InvalidItem));
    assert_eq!(parse("rent: 10.9"), Err(ParseError::InvalidItem));
    assert_eq!(parse("rent: 10.999"), Err(ParseError::InvalidItem));
    assert_eq!(parse("rent:10.99"), Err(ParseError::InvalidItem));
    assert_eq!(parse("rent: -1.00"), Err(ParseError::InvalidItem));
}

#[test]
fn parse_rejects_digits_of_other_scripts() {
    assert_eq!(parse("rent: \u{0661}.00"), Err(ParseError::InvalidNumber));
    assert_eq!(parse("rent: 1.\u{0661}\u{0662}"), Err(ParseError::InvalidNumber));
}

#[test]
fn parse_rejects_amounts_that_do_not_fit() {
    assert_eq!(parse("all: 42949672.96"), Err(ParseError::TooLarge));
    assert_eq!(parse("all: 4294967296.00"), Err(ParseError::TooLarge));
    assert_eq!(parse("all: 99999999999999999999999.00"), Err(ParseError::TooLarge));
}

#[test]
fn parse_number_reads_decimal_numerals() {
    assert_eq!(parse_number("0"), Ok(0));
    assert_eq!(parse_number("007"), Ok(7));
    assert_eq!(parse_number("4294967295"), Ok(u32::MAX));
    assert_eq!(parse_number("4294967296"), Err(ParseError::TooLarge));
    assert_eq!(parse_number(""), Err(ParseError::InvalidNumber));
    assert_eq!(parse_number("+5"), Err(ParseError::InvalidNumber));
    assert_eq!(parse_number("12a"), Err(ParseError::InvalidNumber));
    assert_eq!(parse_number("99999999999x"), Err(ParseError::InvalidNumber));
}

#[test]
fn item_from_groups_reads_the_three_groups() {
    assert_eq!(
        item_from_groups(groups("rent: 10.99", "rent", "10", "99")),
        Ok((String::from("rent"), 1099))
    );
    assert_eq!(item_from_groups(None), Err(ParseError::InvalidItem));
    assert_eq!(item_from_groups(Some(vec![])), Err(ParseError::InvalidItem));
    assert_eq!(
        item_from_groups(Some(vec![Some(String::from("x")), None, None, None])),
        Err(ParseError::InvalidItem)
    );
    assert_eq!(
        item_from_groups(groups("", "rent", "x", "99")),
        Err(ParseError::InvalidNumber)
    );
    assert_eq!(
        item_from_groups(groups("", "rent", "42949672", "96")),
        Err(ParseError::TooLarge)
    );
}
