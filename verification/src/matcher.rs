//! The matching engine: the single-path search, the enumeration of every
//! candidate subset for one order, and the combination of the candidates of
//! all orders into complete allocations.

use core::ops::Range;
use vstd::prelude::*;
use vstd::seq_lib::{lemma_sorted_unique, to_multiset_len};

use crate::choices::{
    choices, is_choice, is_selection, next_choice, next_selection, pending_choices,
    pending_selections, selections,
};
use crate::fit::{
    assigned, built, canonical, drawn_from, greedy_pick, is_candidate_list, is_fit, is_solution,
    is_solution_set, lemma_greedy_pick_sound, lemma_greedy_pick_takes_exact, total,
};
use crate::ranking::{
    charge_order, lemma_charge_order_total, precedes, rank_subsets, solution_order,
    strictly_sorted, subset_order, AssignmentView, Rank,
};
use crate::sorting::{insert_solution, insert_subset, sort_charges};
use crate::subsets::{
    lemma_pick_drawn, lemma_pick_sorted, lemma_sorted_drawn_is_picked, pick, pick_charges,
};
use crate::types::{Charge, ChargeView, Order};

verus! {

/// Searches `charges`, in the order given, for charges that pay `order`
/// exactly, along a single path: a charge larger than what is still owed is
/// passed over, any other is taken for good.
///
/// Returns the charges taken, in the order in which they stand in `charges`,
/// or `None` where the path ends with something still owed. An order that
/// owes nothing is paid by no charges at all.
pub fn knapsack(order: Order, charges: &[Charge]) -> (r: Option<Vec<Charge>>)
    ensures
        r.deep_view() == greedy_pick(order@.value, charges.deep_view()),
        r matches Some(taken) ==> total(taken.deep_view()) == order@.value && drawn_from(
            taken.deep_view(),
            charges.deep_view(),
        ),
        order@.value == 0 ==> r.deep_view() == Some(Seq::<ChargeView>::empty()),
    decreases charges.len(),
{
    let ghost full = charges.deep_view();
    let ghost target = order@.value;
    if order.is_zero() {
        let taken: Vec<Charge> = Vec::new();
        assert(taken.deep_view() =~= Seq::<ChargeView>::empty());
        proof {
            lemma_greedy_pick_sound(target, full);
        }
        return Some(taken);
    }
    if charges.is_empty() {
        return None;
    }
    let c = charges[0].clone();
    let rest = &charges[1..charges.len()];
    assert(rest.deep_view() =~= full.skip(1));
    assert(c@ == full[0]);
    if order < c {
        let r = knapsack(order, rest);
        proof {
            if r is Some {
                lemma_greedy_pick_sound(target, full);
            }
        }
        return r;
    }
    match knapsack(order - c.clone(), rest) {
        Some(mut taken) => {
            let ghost before = taken.deep_view();
            taken.insert(0, c);
            assert(taken.deep_view() =~= seq![full[0]] + before);
            proof {
                lemma_greedy_pick_sound(target, full);
            }
            Some(taken)
        },
        None => None,
    }
}

/// Copies the charges into a vector of their own.
fn copy_charges(charges: &[Charge]) -> (r: Vec<Charge>)
    ensures
        r.deep_view() == charges.deep_view(),
{
    let mut copy: Vec<Charge> = Vec::new();
    let mut i: usize = 0;
    while i < charges.len()
        invariant
            i <= charges.len(),
            copy.len() == i,
            forall|k: int| 0 <= k < i ==> #[trigger] copy[k]@ == charges[k]@,
        decreases charges.len() - i,
    {
        copy.push(charges[i].clone());
        i = i + 1;
    }
    assert(copy.deep_view() =~= charges.deep_view());
    copy
}

/// What an enumeration has still to hand out: what was taken from it last,
/// if anything, followed by what is pending in it.
spec fn upcoming(next: Option<Vec<usize>>, pending: Seq<Seq<usize>>) -> Seq<Seq<usize>> {
    match next {
        Some(positions) => seq![positions@] + pending,
        None => pending,
    }
}

/// Every candidate subset for `order` among `charges`: every group of
/// charges, in canonical form, whose amounts sum to the amount of the order
/// exactly. Each candidate comes once, and the candidates are ranked.
///
/// The charges may come in any order. An order that owes nothing has one
/// candidate, the empty subset, whatever the charges.
pub fn exhaustive(order: Order, charges: &[Charge]) -> (r: Vec<Vec<Charge>>)
    ensures
        is_candidate_list(r.deep_view(), order@.value, charges.deep_view()),
        order@.value == 0 ==> r.deep_view() == seq![Seq::<ChargeView>::empty()],
{
    let ghost target = order@.value;
    let ghost full = charges.deep_view();
    let mut sorted = copy_charges(charges);
    sort_charges(&mut sorted);
    let ghost pool = sorted.deep_view();
    let mut it = selections(sorted.len());
    let ghost all = pending_selections(it);
    let ghost mut done = Seq::<Seq<usize>>::empty();
    let mut fits: Vec<Vec<Charge>> = Vec::new();
    let mut next = next_selection(&mut it);
    assert(all =~= done + upcoming(next, pending_selections(it)));
    while next.is_some()
        invariant
            target == order@.value,
            pool == sorted.deep_view(),
            canonical(pool),
            pool.to_multiset() == full.to_multiset(),
            all == done + upcoming(next, pending_selections(it)),
            forall|k: int| 0 <= k < all.len() ==> is_selection(#[trigger] all[k], pool.len()),
            next is None ==> pending_selections(it).len() == 0,
            strictly_sorted(fits.deep_view(), subset_order()),
            forall|sub: Seq<ChargeView>| #[trigger]
                fits.deep_view().contains(sub) ==> is_fit(sub, target, full),
            forall|k: int|
                0 <= k < done.len() ==> ((#[trigger] greedy_pick(target, pick(pool, done[k])))
                    matches Some(taken) ==> fits.deep_view().contains(taken)),
        decreases pending_selections(it).len() + if next is Some { 1int } else { 0int },
    {
        let sel = next.unwrap();
        let ghost before = fits.deep_view();
        assert(all[done.len() as int] == sel@);
        let sub = pick_charges(&sorted, &sel);
        proof {
            lemma_pick_sorted(pool, sel@, charge_order());
            lemma_pick_drawn(pool, sel@);
        }
        match knapsack(order.clone(), sub.as_slice()) {
            Some(taken) => {
                proof {
                    lemma_greedy_pick_sound(target, sub.deep_view());
                    assert(is_fit(taken.deep_view(), target, full));
                }
                insert_subset(&mut fits, taken);
            },
            None => {},
        }
        proof {
            let after = fits.deep_view();
            assert forall|x: Seq<ChargeView>| before.contains(x) implies #[trigger] after.contains(
                x,
            ) by {}
            done = done.push(sel@);
        }
        next = next_selection(&mut it);
        assert(all =~= done + upcoming(next, pending_selections(it)));
    }
    proof {
        assert(all =~= done);
        lemma_charge_order_total();
        let found = fits.deep_view();
        assert forall|sub: Seq<ChargeView>| is_fit(sub, target, full) implies #[trigger]
            found.contains(sub) by {
            let sel = lemma_sorted_drawn_is_picked(sub, pool, charge_order());
            assert(all.contains(sel));
            let k = choose|k: int| 0 <= k < all.len() && all[k] == sel;
            if target > 0 {
                lemma_greedy_pick_takes_exact(target, sub);
            } else {
                assert(sub =~= Seq::<ChargeView>::empty());
            }
            assert(greedy_pick(target, pick(pool, done[k])) == Some(sub));
        }
        if target == 0 {
            let none = Seq::<ChargeView>::empty();
            assert(is_fit(none, target, full)) by {
                lemma_greedy_pick_sound(target, full);
            }
            assert(found.contains(none));
            if found.len() > 1 {
                assert(found.contains(found[0]) && found.contains(found[1]));
                assert(found[0] =~= none && found[1] =~= none);
                assert(precedes(subset_order(), found[0], found[1]));
            }
            assert(found.contains(found[0]));
            assert(found[0] =~= none);
            assert(found =~= seq![none]);
        }
    }
    fits
}

/// Puts together the solution that a choice of candidates stands for: each
/// order with the candidate subset chosen for it.
fn assemble(orders: &[Order], candidates: &Vec<Vec<Vec<Charge>>>, choice: &Vec<usize>) -> (r: Vec<
    (Order, Vec<Charge>),
>)
    requires
        choice.len() == orders.len(),
        candidates.len() == orders.len(),
        forall|i: int| 0 <= i < choice.len() ==> #[trigger] choice[i] < candidates[i].len(),
    ensures
        r.deep_view() == built(orders.deep_view(), candidates.deep_view(), choice@),
{
    let mut solution: Vec<(Order, Vec<Charge>)> = Vec::new();
    let mut i: usize = 0;
    while i < orders.len()
        invariant
            i <= orders.len(),
            choice.len() == orders.len(),
            candidates.len() == orders.len(),
            forall|k: int| 0 <= k < choice.len() ==> #[trigger] choice[k] < candidates[k].len(),
            solution.len() == i,
            forall|k: int|
                0 <= k < i ==> (#[trigger] solution[k]).deep_view() == (
                    orders[k]@,
                    candidates[k][choice[k] as int].deep_view(),
                ),
        decreases orders.len() - i,
    {
        assert(choice[i as int] < candidates[i as int].len());
        let subset = copy_charges(candidates[i][choice[i]].as_slice());
        solution.push((orders[i].clone(), subset));
        i = i + 1;
    }
    assert(solution.deep_view() =~= built(orders.deep_view(), candidates.deep_view(), choice@));
    solution
}

/// Whether the solution uses every one of the charges exactly once: whether
/// the charges it assigns, taken together, are the given charges.
fn covers(solution: &Vec<(Order, Vec<Charge>)>, charges: &Vec<Charge>) -> (r: bool)
    requires
        canonical(charges.deep_view()),
    ensures
        r == (assigned(solution.deep_view()).to_multiset() == charges.deep_view().to_multiset()),
{
    let ghost whole = solution.deep_view();
    let mut used: Vec<Charge> = Vec::new();
    let mut i: usize = 0;
    assert(assigned(whole.take(0)) =~= used.deep_view());
    while i < solution.len()
        invariant
            i <= solution.len(),
            whole == solution.deep_view(),
            used.deep_view() == assigned(whole.take(i as int)),
        decreases solution.len() - i,
    {
        let ghost before = used.deep_view();
        let mut part = copy_charges(solution[i].1.as_slice());
        used.append(&mut part);
        proof {
            let upto = whole.take(i + 1);
            assert(upto.drop_last() =~= whole.take(i as int));
            assert(upto.last().1 == solution[i as int].1.deep_view());
            assert(used.deep_view() =~= before + solution[i as int].1.deep_view());
        }
        i = i + 1;
    }
    assert(whole.take(i as int) =~= whole);
    sort_charges(&mut used);
    proof {
        lemma_charge_order_total();
        if used.deep_view().to_multiset() == charges.deep_view().to_multiset() {
            lemma_sorted_unique(used.deep_view(), charges.deep_view(), charge_order());
        }
    }
    match rank_subsets(&used, charges) {
        Rank::Same => true,
        _ => false,
    }
}

/// Every complete, exact allocation of `charges` to `orders`: every way to
/// give each order a group of charges that sums to its amount exactly, so
/// that every charge is used exactly once. Each solution comes once, and the
/// solutions are ranked. With no charges the result is empty.
///
/// The charges are sorted into canonical form in place.
pub fn match_charges(orders: &[Order], charges: &mut Vec<Charge>) -> (r: Vec<
    Vec<(Order, Vec<Charge>)>,
>)
    ensures
        is_solution_set(r.deep_view(), orders.deep_view(), old(charges).deep_view()),
        old(charges).len() == 0 ==> r.len() == 0,
        canonical(final(charges).deep_view()),
        final(charges).deep_view().to_multiset() == old(charges).deep_view().to_multiset(),
{
    let ghost given = charges.deep_view();
    let ghost wanted = orders.deep_view();
    let mut solutions: Vec<Vec<(Order, Vec<Charge>)>> = Vec::new();
    if charges.is_empty() {
        assert(given.len() == 0);
        assert(canonical(given));
        assert forall|solution: Seq<AssignmentView>| !(#[trigger] solutions.deep_view().contains(
            solution,
        )) by {}
        return solutions;
    }
    sort_charges(charges);
    let ghost full = charges.deep_view();
    assert(full.len() == given.len()) by {
        to_multiset_len(full);
        to_multiset_len(given);
    }

    let mut candidates: Vec<Vec<Vec<Charge>>> = Vec::new();
    let mut ranges: Vec<Range<usize>> = Vec::new();
    let mut i: usize = 0;
    while i < orders.len()
        invariant
            i <= orders.len(),
            wanted == orders.deep_view(),
            full == charges.deep_view(),
            candidates.len() == i,
            ranges.len() == i,
            forall|k: int|
                0 <= k < i ==> is_candidate_list(
                    #[trigger] candidates.deep_view()[k],
                    wanted[k].value,
                    full,
                ),
            forall|k: int|
                0 <= k < i ==> (#[trigger] ranges[k]).start == 0 && ranges[k].end
                    == candidates[k].len(),
        decreases orders.len() - i,
    {
        let fits = exhaustive(orders[i].clone(), charges.as_slice());
        let ghost before = candidates.deep_view();
        ranges.push(0..fits.len());
        candidates.push(fits);
        proof {
            let after = candidates.deep_view();
            assert forall|k: int| 0 <= k < i + 1 implies is_candidate_list(
                #[trigger] after[k],
                wanted[k].value,
                full,
            ) by {
                if k < i {
                    assert(after[k] == before[k]);
                }
            }
        }
        i = i + 1;
    }
    let ghost lists = candidates.deep_view();
    let ghost bounds = ranges@;
    let mut it = choices(ranges);
    let ghost all = pending_choices(it);
    let ghost mut done = Seq::<Seq<usize>>::empty();
    let mut next = next_choice(&mut it);
    assert(all =~= done + upcoming(next, pending_choices(it)));
    while next.is_some()
        invariant
            wanted == orders.deep_view(),
            full == charges.deep_view(),
            lists == candidates.deep_view(),
            canonical(full),
            full.len() > 0,
            candidates.len() == orders.len(),
            bounds.len() == orders.len(),
            forall|k: int|
                0 <= k < lists.len() ==> is_candidate_list(
                    #[trigger] lists[k],
                    wanted[k].value,
                    full,
                ),
            forall|k: int|
                0 <= k < bounds.len() ==> (#[trigger] bounds[k]).start == 0 && bounds[k].end
                    == lists[k].len(),
            all == done + upcoming(next, pending_choices(it)),
            forall|k: int| 0 <= k < all.len() ==> is_choice(#[trigger] all[k], bounds),
            next is None ==> pending_choices(it).len() == 0,
            strictly_sorted(solutions.deep_view(), solution_order()),
            forall|solution: Seq<AssignmentView>| #[trigger]
                solutions.deep_view().contains(solution) ==> is_solution(solution, wanted, full),
            forall|k: int|
                0 <= k < done.len() && is_solution(
                    #[trigger] built(wanted, lists, done[k]),
                    wanted,
                    full,
                ) ==> solutions.deep_view().contains(built(wanted, lists, done[k])),
        decreases pending_choices(it).len() + if next is Some { 1int } else { 0int },
    {
        let choice = next.unwrap();
        let ghost before = solutions.deep_view();
        assert(all[done.len() as int] == choice@);
        assert(is_choice(choice@, bounds));
        assert forall|k: int| 0 <= k < choice.len() implies #[trigger] choice[k]
            < candidates[k].len() by {
            assert(bounds[k].start <= choice@[k] < bounds[k].end);
            assert(lists[k].len() == candidates[k].len());
        }
        let solution = assemble(orders, &candidates, &choice);
        let ghost made = solution.deep_view();
        if covers(&solution, charges) {
            proof {
                assert forall|k: int| 0 <= k < made.len() implies (#[trigger] made[k]).0
                    == wanted[k] && is_fit(made[k].1, wanted[k].value, full) by {
                    assert(is_candidate_list(lists[k], wanted[k].value, full));
                    assert(lists[k].contains(lists[k][choice@[k] as int]));
                }
                assert(is_solution(made, wanted, full));
            }
            insert_solution(&mut solutions, solution);
        }
        proof {
            let after = solutions.deep_view();
            assert forall|x: Seq<AssignmentView>| before.contains(x) implies #[trigger]
                after.contains(x) by {}
            done = done.push(choice@);
        }
        next = next_choice(&mut it);
        assert(all =~= done + upcoming(next, pending_choices(it)));
    }
    proof {
        assert(all =~= done);
        let found = solutions.deep_view();
        assert forall|solution: Seq<AssignmentView>| is_solution(
            solution,
            wanted,
            full,
        ) implies #[trigger] found.contains(solution) by {
            let choice = Seq::new(
                solution.len(),
                |k: int| lists[k].index_of(solution[k].1) as usize,
            );
            assert forall|k: int| 0 <= k < choice.len() implies bounds[k].start <= #[trigger]
                choice[k] < bounds[k].end && lists[k][choice[k] as int] == solution[k].1 by {
                assert(is_fit(solution[k].1, wanted[k].value, full));
                assert(is_candidate_list(lists[k], wanted[k].value, full));
                assert(lists[k].contains(solution[k].1));
                assert(lists[k].len() == candidates[k].len());
            }
            assert(is_choice(choice, bounds));
            assert(all.contains(choice));
            let k = choose|k: int| 0 <= k < all.len() && all[k] == choice;
            assert(built(wanted, lists, done[k]) =~= solution);
        }
        assert(is_solution_set(found, wanted, given));
    }
    solutions
}

} // verus!
