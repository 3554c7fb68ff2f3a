//! Enumeration of positions: every way to select some of `n` positions, and
//! every way to choose one position out of each of several ranges. Both are
//! walked lazily with the iterators of `itertools`; what they yield is
//! trusted, not proved.

use core::ops::Range;
use itertools::{Itertools, MultiProduct, Powerset};
use vstd::prelude::*;

verus! {

/// `itertools::Powerset`, the iterator that `Itertools::powerset` returns.
/// Declared to be carried through: nothing is known of what is inside.
#[verifier::external_type_specification]
#[verifier::external_body]
#[verifier::reject_recursive_types(I)]
pub struct ExPowerset<I: Iterator>(Powerset<I>);

/// `itertools::MultiProduct`, the iterator that
/// `Itertools::multi_cartesian_product` returns. Declared to be carried
/// through: nothing is known of what is inside.
#[verifier::external_type_specification]
#[verifier::external_body]
#[verifier::reject_recursive_types(I)]
pub struct ExMultiProduct<I>(MultiProduct<I>) where I: Iterator + Clone, I::Item: Clone;

/// The selections that a powerset iterator over positions has still to
/// yield, in the order in which it will yield them.
pub uninterp spec fn pending_selections(it: Powerset<Range<usize>>) -> Seq<Seq<usize>>;

/// The choices that a product iterator over ranges of positions has still to
/// yield, in the order in which it will yield them.
pub uninterp spec fn pending_choices(it: MultiProduct<Range<usize>>) -> Seq<Seq<usize>>;

/// A selection among `n` positions: positions below `n`, in strictly
/// ascending order.
pub open spec fn is_selection(sel: Seq<usize>, n: nat) -> bool {
    &&& forall|j: int| 0 <= j < sel.len() ==> #[trigger] sel[j] < n
    &&& forall|i: int, j: int| 0 <= i < j < sel.len() ==> #[trigger] sel[i] < #[trigger] sel[j]
}

/// A choice out of `ranges`: one position from each range, in the order of
/// the ranges.
pub open spec fn is_choice(choice: Seq<usize>, ranges: Seq<Range<usize>>) -> bool {
    &&& choice.len() == ranges.len()
    &&& forall|i: int|
        0 <= i < choice.len() ==> ranges[i].start <= #[trigger] choice[i] < ranges[i].end
}

/// Starts `Itertools::powerset` on the positions `0..n`. Trusted: the
/// iterator yields selections among `n` positions only, and yields every
/// such selection.
#[verifier::external_body]
pub(crate) fn selections(n: usize) -> (it: Powerset<Range<usize>>)
    ensures
        forall|k: int|
            0 <= k < pending_selections(it).len() ==> is_selection(
                #[trigger] pending_selections(it)[k],
                n as nat,
            ),
        forall|sel: Seq<usize>| #[trigger]
            is_selection(sel, n as nat) ==> pending_selections(it).contains(sel),
{
    (0..n).powerset()
}

/// Takes the next selection with `Iterator::next` of `Powerset`. Trusted:
/// it hands out the first pending selection and leaves the others pending,
/// or returns `None` when none is pending.
#[verifier::external_body]
pub(crate) fn next_selection(it: &mut Powerset<Range<usize>>) -> (r: Option<Vec<usize>>)
    ensures
        match r {
            Some(sel) => {
                &&& pending_selections(*old(it)).len() > 0
                &&& sel@ == pending_selections(*old(it))[0]
                &&& pending_selections(*final(it)) == pending_selections(*old(it)).skip(1)
            },
            None => {
                &&& pending_selections(*old(it)).len() == 0
                &&& pending_selections(*final(it)).len() == 0
            },
        },
{
    it.next()
}

/// Starts `Itertools::multi_cartesian_product` on the ranges. Trusted: the
/// iterator yields choices out of `ranges` only, and yields every such
/// choice.
#[verifier::external_body]
pub(crate) fn choices(ranges: Vec<Range<usize>>) -> (it: MultiProduct<Range<usize>>)
    ensures
        forall|k: int|
            0 <= k < pending_choices(it).len() ==> is_choice(
                #[trigger] pending_choices(it)[k],
                ranges@,
            ),
        forall|choice: Seq<usize>| #[trigger]
            is_choice(choice, ranges@) ==> pending_choices(it).contains(choice),
{
    ranges.into_iter().multi_cartesian_product()
}

/// Takes the next choice with `Iterator::next` of `MultiProduct`. Trusted:
/// it hands out the first pending choice and leaves the others pending, or
/// returns `None` when none is pending.
#[verifier::external_body]
pub(crate) fn next_choice(it: &mut MultiProduct<Range<usize>>) -> (r: Option<Vec<usize>>)
    ensures
        match r {
            Some(choice) => {
                &&& pending_choices(*old(it)).len() > 0
                &&& choice@ == pending_choices(*old(it))[0]
                &&& pending_choices(*final(it)) == pending_choices(*old(it)).skip(1)
            },
            None => {
                &&& pending_choices(*old(it)).len() == 0
                &&& pending_choices(*final(it)).len() == 0
            },
        },
{
    it.next()
}

} // verus!
