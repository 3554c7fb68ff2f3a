//! The textual form of orders and charges: a label, a colon and a space, and
//! the amount in units and hundredths, as in `rent: 10.99`.

use vstd::prelude::*;
use vstd::string::{StrSliceExecFns, StringExecFns};

use crate::types::{Charge, Order};

verus! {

/// The character of a decimal digit.
pub open spec fn digit_char(d: nat) -> char
    recommends
        d < 10,
{
    seq!['0', '1', '2', '3', '4', '5', '6', '7', '8', '9'][d as int]
}

/// The decimal numeral of `n`, without leading zeros.
pub open spec fn decimal(n: nat) -> Seq<char>
    decreases n,
{
    if n < 10 {
        seq![digit_char(n)]
    } else {
        decimal(n / 10).push(digit_char(n % 10))
    }
}

/// The text of an item: its label, `": "`, the whole units of the amount, a
/// point, and the hundredths in two digits.
pub open spec fn item_text(id: Seq<char>, value: nat) -> Seq<char> {
    id + seq![':', ' '] + decimal(value / 100) + seq!['.'] + seq![
        digit_char(value % 100 / 10),
        digit_char(value % 10),
    ]
}

/// The numeral of one decimal digit.
fn digit_str(d: u32) -> (r: &'static str)
    requires
        d < 10,
    ensures
        r@ == seq![digit_char(d as nat)],
{
    proof {
        reveal_strlit("0");
        reveal_strlit("1");
        reveal_strlit("2");
        reveal_strlit("3");
        reveal_strlit("4");
        reveal_strlit("5");
        reveal_strlit("6");
        reveal_strlit("7");
        reveal_strlit("8");
        reveal_strlit("9");
    }
    let r = if d == 0 {
        "0"
    } else if d == 1 {
        "1"
    } else if d == 2 {
        "2"
    } else if d == 3 {
        "3"
    } else if d == 4 {
        "4"
    } else if d == 5 {
        "5"
    } else if d == 6 {
        "6"
    } else if d == 7 {
        "7"
    } else if d == 8 {
        "8"
    } else {
        "9"
    };
    assert(r@ =~= seq![digit_char(d as nat)]);
    r
}

/// Appends the decimal numeral of `n` to `out`.
fn push_decimal(out: &mut String, n: u32)
    ensures
        final(out)@ == old(out)@ + decimal(n as nat),
    decreases n,
{
    if n >= 10 {
        push_decimal(out, n / 10);
    }
    out.append(digit_str(n % 10));
    assert(out@ =~= old(out)@ + decimal(n as nat));
}

/// Writes an item as text: the label, `": "`, and the amount in units and
/// hundredths.
pub fn write(id: &str, value: u32) -> (r: String)
    ensures
        r@ == item_text(id@, value as nat),
{
    proof {
        reveal_strlit(": ");
        reveal_strlit(".");
    }
    let mut out = String::from_str(id);
    out.append(": ");
    push_decimal(&mut out, value / 100);
    out.append(".");
    out.append(digit_str(value % 100 / 10));
    out.append(digit_str(value % 10));
    assert(out@ =~= item_text(id@, value as nat));
    out
}

impl Order {
    /// The order as text.
    pub fn to_text(&self) -> (r: String)
        ensures
            r@ == item_text(self@.name, self@.value),
    {
        write(self.name(), self.value())
    }
}

impl Charge {
    /// The charge as text.
    pub fn to_text(&self) -> (r: String)
        ensures
            r@ == item_text(self@.date, self@.value),
    {
        write(self.date(), self.value())
    }
}

/// Why a text is not an item.
#[derive(Debug, Clone, Copy, PartialEq, Eq, Structural)]
pub enum ParseError {
    /// The text does not have the form of an item.
    InvalidItem,
    /// The units or the hundredths are not written in the digits `0` to `9`.
    InvalidNumber,
    /// The amount does not fit in 32 bits of cents.
    TooLarge,
}

/// The form of an item, as a regular expression with three groups: the
/// label, the units and the hundredths. Between the units and the hundredths
/// stands a point, and nothing else will do.
pub const ITEM_PATTERN: &'static str = r"^\s*(.*): (\d+)\.(\d\d)\s*$";

/// What the groups of the pattern capture in the text, the whole match
/// first, or `None` where the pattern does not compile or the text does not
/// match it.
pub uninterp spec fn regex_captures(pattern: Seq<char>, text: Seq<char>) -> Option<
    Seq<Option<Seq<char>>>,
>;

/// Matches the text against the pattern with `Regex::captures` of `regex`,
/// on the expression that `Regex::new` compiles from the pattern. Trusted:
/// the result, which depends on the pattern and on the text alone, is named
/// [`regex_captures`].
#[verifier::external_body]
fn capture_groups(pattern: &str, text: &str) -> (r: Option<Vec<Option<String>>>)
    ensures
        r.deep_view() == regex_captures(pattern@, text@),
{
    let re = regex::Regex::new(pattern).ok()?;
    let caps = re.captures(text)?;
    Some(caps.iter().map(|m| m.map(|m| m.as_str().to_string())).collect())
}

/// Whether the character is one of the digits `0` to `9`.
pub open spec fn is_digit(c: char) -> bool {
    '0' as int <= c as int <= '9' as int
}

/// The value of a digit.
pub open spec fn digit_value(c: char) -> nat
    recommends
        is_digit(c),
{
    (c as int - '0' as int) as nat
}

/// Whether the text is a decimal numeral: one digit or more, and nothing
/// else.
pub open spec fn is_numeral(s: Seq<char>) -> bool {
    s.len() > 0 && forall|i: int| 0 <= i < s.len() ==> is_digit(#[trigger] s[i])
}

/// The number that a decimal numeral stands for.
pub open spec fn numeral_value(s: Seq<char>) -> nat
    decreases s.len(),
{
    if s.len() == 0 {
        0
    } else {
        10 * numeral_value(s.drop_last()) + digit_value(s.last())
    }
}

/// The number that the text stands for, or why it stands for none that fits
/// in 32 bits.
pub open spec fn number_of(s: Seq<char>) -> Result<nat, ParseError> {
    if !is_numeral(s) {
        Err(ParseError::InvalidNumber)
    } else if numeral_value(s) > u32::MAX {
        Err(ParseError::TooLarge)
    } else {
        Ok(numeral_value(s))
    }
}

/// The item that the captured groups stand for: the label as captured, and
/// the amount in cents, a hundred times the units plus the hundredths.
pub open spec fn item_of(groups: Option<Seq<Option<Seq<char>>>>) -> Result<
    (Seq<char>, nat),
    ParseError,
> {
    match groups {
        Some(g) if g.len() == 4 && g[1] is Some && g[2] is Some && g[3] is Some => {
            match (number_of(g[2]->0), number_of(g[3]->0)) {
                (Ok(units), Ok(hundredths)) => {
                    if 100 * units + hundredths <= u32::MAX {
                        Ok((g[1]->0, 100 * units + hundredths))
                    } else {
                        Err(ParseError::TooLarge)
                    }
                },
                (Err(e), _) => Err(e),
                (_, Err(e)) => Err(e),
            }
        },
        _ => Err(ParseError::InvalidItem),
    }
}

/// The value of a digit, or `None` for any other character.
fn digit_of(c: char) -> (r: Option<u64>)
    ensures
        r is Some <==> is_digit(c),
        r matches Some(d) ==> d == digit_value(c) && d < 10,
{
    match c {
        '0' => Some(0),
        '1' => Some(1),
        '2' => Some(2),
        '3' => Some(3),
        '4' => Some(4),
        '5' => Some(5),
        '6' => Some(6),
        '7' => Some(7),
        '8' => Some(8),
        '9' => Some(9),
        _ => None,
    }
}

/// A numeral with one digit more is worth at least as much.
proof fn lemma_numeral_value_grows(s: Seq<char>, i: int)
    requires
        0 <= i < s.len(),
    ensures
        s.take(i + 1).drop_last() == s.take(i),
        s.take(i + 1).last() == s[i],
        numeral_value(s.take(i + 1)) == 10 * numeral_value(s.take(i)) + digit_value(s[i]),
        numeral_value(s.take(i + 1)) >= numeral_value(s.take(i)),
{
    assert(s.take(i + 1).drop_last() =~= s.take(i));
}

/// Reads a decimal numeral.
pub fn parse_number(s: &str) -> (r: Result<u32, ParseError>)
    ensures
        match r {
            Ok(v) => number_of(s@) == Ok::<nat, ParseError>(v as nat),
            Err(e) => number_of(s@) == Err::<nat, ParseError>(e),
        },
{
    let n: usize = s.unicode_len();
    if n == 0 {
        return Err(ParseError::InvalidNumber);
    }
    let mut value: u64 = 0;
    let mut too_large = false;
    let mut i: usize = 0;
    while i < n
        invariant
            n == s@.len(),
            i <= n,
            forall|k: int| 0 <= k < i ==> is_digit(#[trigger] s@[k]),
            !too_large ==> value == numeral_value(s@.take(i as int)) && value <= u32::MAX,
            too_large ==> numeral_value(s@.take(i as int)) > u32::MAX,
        decreases n - i,
    {
        proof {
            lemma_numeral_value_grows(s@, i as int);
        }
        match digit_of(s.get_char(i)) {
            None => {
                return Err(ParseError::InvalidNumber);
            },
            Some(d) => {
                if !too_large {
                    value = 10 * value + d;
                    if value > 0xffff_ffff {
                        too_large = true;
                    }
                }
            },
        }
        i = i + 1;
    }
    assert(s@.take(i as int) =~= s@);
    if too_large {
        Err(ParseError::TooLarge)
    } else {
        Ok(value as u32)
    }
}

/// Reads an item off the groups that the pattern of items has captured.
pub fn item_from_groups(groups: Option<Vec<Option<String>>>) -> (r: Result<
    (String, u32),
    ParseError,
>)
    ensures
        match r {
            Ok((id, value)) => item_of(groups.deep_view()) == Ok::<(Seq<char>, nat), ParseError>(
                (id@, value as nat),
            ),
            Err(e) => item_of(groups.deep_view()) == Err::<(Seq<char>, nat), ParseError>(e),
        },
{
    let found = match groups {
        Some(found) => found,
        None => {
            return Err(ParseError::InvalidItem);
        },
    };
    let ghost g = found.deep_view();
    assert(groups.deep_view() == Some(g));
    if found.len() != 4 {
        return Err(ParseError::InvalidItem);
    }
    assert(g[1] == found[1].deep_view() && g[2] == found[2].deep_view() && g[3]
        == found[3].deep_view());
    match (&found[1], &found[2], &found[3]) {
        (Some(id), Some(units), Some(hundredths)) => {
            let units = match parse_number(units.as_str()) {
                Ok(units) => units,
                Err(e) => {
                    return Err(e);
                },
            };
            let hundredths = match parse_number(hundredths.as_str()) {
                Ok(hundredths) => hundredths,
                Err(e) => {
                    return Err(e);
                },
            };
            let cents: u64 = 100 * (units as u64) + (hundredths as u64);
            if cents > 0xffff_ffff {
                Err(ParseError::TooLarge)
            } else {
                Ok((id.clone(), cents as u32))
            }
        },
        _ => Err(ParseError::InvalidItem),
    }
}

/// The item that the text stands for, or why it stands for none.
pub open spec fn parsed(s: Seq<char>) -> Result<(Seq<char>, nat), ParseError> {
    item_of(regex_captures(ITEM_PATTERN@, s))
}

/// Reads an item: a label, a colon and a space, and an amount as units, a
/// point and two digits of hundredths. Blanks around the item are dropped.
/// The amount comes back in cents. A text of any other form, one without
/// the point among them, is no item.
pub fn parse(s: &str) -> (r: Result<(String, u32), ParseError>)
    ensures
        match r {
            Ok((id, value)) => parsed(s@) == Ok::<(Seq<char>, nat), ParseError>(
                (id@, value as nat),
            ),
            Err(e) => parsed(s@) == Err::<(Seq<char>, nat), ParseError>(e),
        },
{
    item_from_groups(capture_groups(ITEM_PATTERN, s))
}

impl core::str::FromStr for Order {
    type Err = ParseError;

    /// Reads an order from its text.
    fn from_str(s: &str) -> (r: Result<Self, ParseError>)
        ensures
            match r {
                Ok(order) => parsed(s@) == Ok::<(Seq<char>, nat), ParseError>(
                    (order@.name, order@.value),
                ),
                Err(e) => parsed(s@) == Err::<(Seq<char>, nat), ParseError>(e),
            },
    {
        match parse(s) {
            Ok((name, value)) => Ok(Order::new(name, value)),
            Err(e) => Err(e),
        }
    }
}

impl core::str::FromStr for Charge {
    type Err = ParseError;

    /// Reads a charge from its text.
    fn from_str(s: &str) -> (r: Result<Self, ParseError>)
        ensures
            match r {
                Ok(charge) => parsed(s@) == Ok::<(Seq<char>, nat), ParseError>(
                    (charge@.date, charge@.value),
                ),
                Err(e) => parsed(s@) == Err::<(Seq<char>, nat), ParseError>(e),
            },
    {
        match parse(s) {
            Ok((date, value)) => Ok(Charge::new(date, value)),
            Err(e) => Err(e),
        }
    }
}

} // verus!
