//! Orders and charges, and what the matcher sees of them.

use std::cmp::Ordering;
use vstd::prelude::*;
use vstd::std_specs::cmp::{PartialEqSpecImpl, PartialOrdSpecImpl};

verus! {

/// The mathematical content of an [`Order`]: its label and the amount owed,
/// in cents.
pub struct OrderView {
    pub name: Seq<char>,
    pub value: nat,
}

/// The mathematical content of a [`Charge`]: its label and the amount paid,
/// in cents.
pub struct ChargeView {
    pub date: Seq<char>,
    pub value: nat,
}

/// An amount owed, under a label.
#[derive(Debug, PartialEq, Eq, PartialOrd, Ord)]
pub struct Order {
    name: String,
    value: u32,
}

/// An amount paid, under a label. Two charges with the same label and the
/// same amount cannot be told apart.
#[derive(Debug, PartialEq, Eq, Hash, PartialOrd, Ord)]
pub struct Charge {
    value: u32,
    date: String,
}

impl View for Order {
    type V = OrderView;

    closed spec fn view(&self) -> OrderView {
        OrderView { name: self.name@, value: self.value as nat }
    }
}

impl DeepView for Order {
    type V = OrderView;

    open spec fn deep_view(&self) -> OrderView {
        self@
    }
}

impl View for Charge {
    type V = ChargeView;

    closed spec fn view(&self) -> ChargeView {
        ChargeView { date: self.date@, value: self.value as nat }
    }
}

impl DeepView for Charge {
    type V = ChargeView;

    open spec fn deep_view(&self) -> ChargeView {
        self@
    }
}

impl Clone for Order {
    fn clone(&self) -> (r: Self)
        ensures
            r == *self,
    {
        Order { name: self.name.clone(), value: self.value }
    }
}

impl Clone for Charge {
    fn clone(&self) -> (r: Self)
        ensures
            r == *self,
    {
        Charge { value: self.value, date: self.date.clone() }
    }
}

/// Tests an amount for zero with `num::Zero::is_zero`. Trusted: the result
/// tells whether the amount is 0.
#[verifier::external_body]
fn amount_is_zero(value: u32) -> (r: bool)
    ensures
        r == (value == 0),
{
    num::Zero::is_zero(&value)
}

impl Order {
    /// An order for `value` cents under the label `name`.
    pub fn new(name: String, value: u32) -> (r: Order)
        ensures
            r@ == (OrderView { name: name@, value: value as nat }),
    {
        Order { name, value }
    }

    /// The label.
    pub fn name(&self) -> (r: &str)
        ensures
            r@ == self@.name,
    {
        self.name.as_str()
    }

    /// The amount owed, in cents.
    pub fn value(&self) -> (r: u32)
        ensures
            r as nat == self@.value,
    {
        self.value
    }

    /// The order that owes nothing, under the empty label.
    pub fn zero() -> (r: Order)
        ensures
            r@ == (OrderView { name: Seq::empty(), value: 0 }),
    {
        Order { name: String::new(), value: 0 }
    }

    /// Whether nothing is owed.
    pub fn is_zero(&self) -> (r: bool)
        ensures
            r == (self@.value == 0),
    {
        amount_is_zero(self.value)
    }

    /// Clears the amount owed and keeps the label.
    pub fn set_zero(&mut self)
        ensures
            final(self)@ == (OrderView { name: old(self)@.name, value: 0 }),
    {
        self.value = 0
    }
}

impl core::ops::Sub<Charge> for Order {
    type Output = Order;

    /// What is still owed once the charge has been put towards this order.
    fn sub(self, rhs: Charge) -> (r: Order)
        ensures
            r@ == (OrderView { name: self@.name, value: (self@.value - rhs@.value) as nat }),
    {
        Order { name: self.name, value: self.value - rhs.value }
    }
}

impl vstd::std_specs::ops::SubSpecImpl<Charge> for Order {
    open spec fn obeys_sub_spec() -> bool {
        true
    }

    open spec fn sub_req(self, rhs: Charge) -> bool {
        rhs@.value <= self@.value
    }

    closed spec fn sub_spec(self, rhs: Charge) -> Order {
        Order { name: self.name, value: (self.value - rhs.value) as u32 }
    }
}

impl core::ops::Add<Order> for Order {
    type Output = Order;

    /// The two amounts owed together, under the label of the first.
    fn add(self, rhs: Order) -> (r: Order)
        ensures
            r@ == (OrderView { name: self@.name, value: self@.value + rhs@.value }),
    {
        Order { name: self.name, value: self.value + rhs.value }
    }
}

impl vstd::std_specs::ops::AddSpecImpl<Order> for Order {
    open spec fn obeys_add_spec() -> bool {
        true
    }

    open spec fn add_req(self, rhs: Order) -> bool {
        self@.value + rhs@.value <= u32::MAX
    }

    closed spec fn add_spec(self, rhs: Order) -> Order {
        Order { name: self.name, value: (self.value + rhs.value) as u32 }
    }
}

impl PartialEq<Charge> for Order {
    /// Whether the charge pays exactly what is owed.
    fn eq(&self, rhs: &Charge) -> (r: bool) {
        self.value == rhs.value
    }
}

impl PartialEqSpecImpl<Charge> for Order {
    open spec fn obeys_eq_spec() -> bool {
        true
    }

    open spec fn eq_spec(&self, rhs: &Charge) -> bool {
        self@.value == rhs@.value
    }
}

impl PartialOrd<Charge> for Order {
    /// How what is owed stands to the amount of the charge.
    fn partial_cmp(&self, rhs: &Charge) -> (r: Option<Ordering>) {
        if self.value < rhs.value {
            Some(Ordering::Less)
        } else if self.value == rhs.value {
            Some(Ordering::Equal)
        } else {
            Some(Ordering::Greater)
        }
    }
}

impl PartialOrdSpecImpl<Charge> for Order {
    open spec fn obeys_partial_cmp_spec() -> bool {
        true
    }

    open spec fn partial_cmp_spec(&self, rhs: &Charge) -> Option<Ordering> {
        if self@.value < rhs@.value {
            Some(Ordering::Less)
        } else if self@.value == rhs@.value {
            Some(Ordering::Equal)
        } else {
            Some(Ordering::Greater)
        }
    }
}

impl Charge {
    /// A charge of `value` cents under the label `date`.
    pub fn new(date: String, value: u32) -> (r: Charge)
        ensures
            r@ == (ChargeView { date: date@, value: value as nat }),
    {
        Charge { value, date }
    }

    /// The label.
    pub fn date(&self) -> (r: &str)
        ensures
            r@ == self@.date,
    {
        self.date.as_str()
    }

    /// The amount paid, in cents.
    pub fn value(&self) -> (r: u32)
        ensures
            r as nat == self@.value,
    {
        self.value
    }
}

} // verus!
