//! Exact reconciliation of orders against charges.
//!
//! Given the amounts owed (orders) and the amounts paid (charges), the
//! matcher finds every way to split the charges into groups, one group per
//! order, so that each group adds up to its order exactly and every charge is
//! used exactly once.
//!
//! - [`types`]: orders, charges and their views.
//! - [`ranking`]: the total orders on charges, subsets and solutions.
//! - [`fit`]: what a candidate subset and a solution are.
//! - [`matcher`]: [`knapsack`], [`exhaustive`] and [`match_charges`].
//! - [`laws`]: what holds of every run.
//! - [`sorting`], [`subsets`], [`choices`]: what the matcher is built from.
//! - [`text`]: the textual form of orders and charges.

pub mod choices;
pub mod fit;
pub mod laws;
pub mod matcher;
pub mod ranking;
pub mod sorting;
pub mod subsets;
pub mod text;
pub mod types;

pub use matcher::{exhaustive, knapsack, match_charges};
pub use text::ParseError;
pub use types::{Charge, ChargeView, Order, OrderView};
