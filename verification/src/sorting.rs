//! Sorting of charges into canonical form, and the ranked, duplicate-free
//! lists in which candidate subsets and solutions are collected.

use vstd::prelude::*;
use vstd::relations::total_ordering;
use vstd::seq_lib::{to_multiset_build, to_multiset_insert};

use crate::fit::canonical;
use crate::ranking::{
    charge_order, is_insertion, lemma_charge_order_total, lemma_insertion_contains,
    lemma_insertion_strictly_sorted, lemma_solution_order_total, lemma_subset_order_total,
    precedes, rank_charges, rank_solutions, rank_subsets, solution_order, strictly_sorted,
    subset_order, AssignmentView, Rank,
};
use crate::types::{Charge, ChargeView, Order};

verus! {

/// Sorts the charges into canonical form: by amount, and by label among
/// equal amounts. No charge is added, dropped or changed.
pub fn sort_charges(charges: &mut Vec<Charge>)
    ensures
        canonical(final(charges).deep_view()),
        final(charges).deep_view().to_multiset() == old(charges).deep_view().to_multiset(),
{
    let ghost input = charges.deep_view();
    let mut sorted: Vec<Charge> = Vec::new();
    let mut i: usize = 0;
    assert(input.take(0) =~= sorted.deep_view());
    while i < charges.len()
        invariant
            input == charges.deep_view(),
            i <= charges.len(),
            canonical(sorted.deep_view()),
            sorted.deep_view().to_multiset() == input.take(i as int).to_multiset(),
        decreases charges.len() - i,
    {
        let c = charges[i].clone();
        let ghost before = sorted.deep_view();
        let mut p: usize = 0;
        while p < sorted.len() && !is_after(&sorted[p], &c)
            invariant
                before == sorted.deep_view(),
                p <= sorted.len(),
                forall|k: int| 0 <= k < p ==> #[trigger] charge_order()(before[k], c@),
            decreases sorted.len() - p,
        {
            p = p + 1;
        }
        sorted.insert(p, c);
        proof {
            let after = sorted.deep_view();
            assert(after =~= before.insert(p as int, c@));
            lemma_charge_order_total();
            assert forall|a: int, b: int| 0 <= a < b < after.len() implies charge_order()(
                after[a],
                after[b],
            ) by {
                if b < p {
                    assert(charge_order()(before[a], before[b]));
                } else if b == p {
                } else if a < p {
                    assert(charge_order()(before[a], before[b - 1]));
                } else if a == p {
                    assert(charge_order()(c@, before[p as int]));
                    if b - 1 > p {
                        assert(charge_order()(before[p as int], before[b - 1]));
                    }
                } else {
                    assert(charge_order()(before[a - 1], before[b - 1]));
                }
            }
            to_multiset_insert(before, p as int, c@);
            assert(input.take(i + 1) =~= input.take(i as int).push(c@));
            to_multiset_build(input.take(i as int), c@);
        }
        i = i + 1;
    }
    assert(input.take(i as int) =~= input);
    *charges = sorted;
}

/// Whether `a` comes strictly after `b` in the order on charges.
fn is_after(a: &Charge, b: &Charge) -> (r: bool)
    ensures
        r == !charge_order()(a@, b@),
{
    proof {
        lemma_charge_order_total();
    }
    match rank_charges(a, b) {
        Rank::After => true,
        _ => false,
    }
}

/// Puts a candidate subset at its place in a ranked list of subsets, unless
/// the list holds it already.
pub fn insert_subset(list: &mut Vec<Vec<Charge>>, item: Vec<Charge>)
    requires
        strictly_sorted(old(list).deep_view(), subset_order()),
    ensures
        strictly_sorted(final(list).deep_view(), subset_order()),
        forall|x: Seq<ChargeView>| #[trigger]
            final(list).deep_view().contains(x) <==> old(list).deep_view().contains(x) || x
                == item.deep_view(),
{
    let ghost before = list.deep_view();
    let ghost x = item.deep_view();
    proof {
        lemma_subset_order_total();
    }
    let mut p: usize = 0;
    let mut placed = false;
    while p < list.len() && !placed
        invariant
            before == list.deep_view(),
            x == item.deep_view(),
            p <= list.len(),
            total_ordering(subset_order()),
            strictly_sorted(before, subset_order()),
            forall|k: int| 0 <= k < p ==> #[trigger] precedes(subset_order(), before[k], x),
            placed ==> p < list.len() && precedes(subset_order(), x, before[p as int]),
        decreases list.len() - p + if placed { 0int } else { 1int },
    {
        match rank_subsets(&list[p], &item) {
            Rank::Before => {
                p = p + 1;
            },
            Rank::Same => {
                assert(before[p as int] == x);
                return ;
            },
            Rank::After => {
                placed = true;
            },
        }
    }
    list.insert(p, item);
    proof {
        let after = list.deep_view();
        assert(is_insertion(after, before, x, p as int));
        lemma_insertion_strictly_sorted(after, before, x, p as int, subset_order());
        lemma_insertion_contains(after, before, x, p as int);
    }
}

/// Puts a solution at its place in a ranked list of solutions, unless the
/// list holds it already.
pub fn insert_solution(list: &mut Vec<Vec<(Order, Vec<Charge>)>>, item: Vec<(Order, Vec<Charge>)>)
    requires
        strictly_sorted(old(list).deep_view(), solution_order()),
    ensures
        strictly_sorted(final(list).deep_view(), solution_order()),
        forall|x: Seq<AssignmentView>| #[trigger]
            final(list).deep_view().contains(x) <==> old(list).deep_view().contains(x) || x
                == item.deep_view(),
{
    let ghost before = list.deep_view();
    let ghost x = item.deep_view();
    proof {
        lemma_solution_order_total();
    }
    let mut p: usize = 0;
    let mut placed = false;
    while p < list.len() && !placed
        invariant
            before == list.deep_view(),
            x == item.deep_view(),
            p <= list.len(),
            total_ordering(solution_order()),
            strictly_sorted(before, solution_order()),
            forall|k: int| 0 <= k < p ==> #[trigger] precedes(solution_order(), before[k], x),
            placed ==> p < list.len() && precedes(solution_order(), x, before[p as int]),
        decreases list.len() - p + if placed { 0int } else { 1int },
    {
        match rank_solutions(&list[p], &item) {
            Rank::Before => {
                p = p + 1;
            },
            Rank::Same => {
                assert(before[p as int] == x);
                return ;
            },
            Rank::After => {
                placed = true;
            },
        }
    }
    list.insert(p, item);
    proof {
        let after = list.deep_view();
        assert(is_insertion(after, before, x, p as int));
        lemma_insertion_strictly_sorted(after, before, x, p as int, solution_order());
        lemma_insertion_contains(after, before, x, p as int);
    }
}

} // verus!
