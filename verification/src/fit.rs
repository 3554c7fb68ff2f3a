//! What it means for a group of charges to pay an order exactly, stated over
//! the views of orders and charges.

use vstd::prelude::*;
use vstd::relations::sorted_by;
use vstd::seq_lib::lemma_multiset_commutative;

use crate::ranking::{charge_order, solution_order, strictly_sorted, subset_order, AssignmentView};
use crate::types::{ChargeView, OrderView};

verus! {

/// The sum of the amounts of the charges.
pub open spec fn total(s: Seq<ChargeView>) -> nat
    decreases s.len(),
{
    if s.len() == 0 {
        0
    } else {
        s[0].value + total(s.skip(1))
    }
}

/// The charges that the single-path search takes towards `target`, in the
/// order in which it meets them, or `None` where its path ends short.
///
/// With nothing left to pay the search takes nothing. Else it looks at the
/// first charge: one larger than the target is passed over; any other is
/// taken for good, and the search goes on for the rest of the target.
pub open spec fn greedy_pick(target: nat, s: Seq<ChargeView>) -> Option<Seq<ChargeView>>
    decreases s.len(),
{
    if target == 0 {
        Some(Seq::empty())
    } else if s.len() == 0 {
        None
    } else if target < s[0].value {
        greedy_pick(target, s.skip(1))
    } else {
        match greedy_pick((target - s[0].value) as nat, s.skip(1)) {
            Some(rest) => Some(seq![s[0]] + rest),
            None => None,
        }
    }
}

/// Whether `sub` is in canonical form: sorted under the order on charges.
pub open spec fn canonical(sub: Seq<ChargeView>) -> bool {
    sorted_by(sub, charge_order())
}

/// Whether every charge of `sub` is one of `full`, each as often as it
/// occurs there at most.
pub open spec fn drawn_from(sub: Seq<ChargeView>, full: Seq<ChargeView>) -> bool {
    sub.to_multiset().subset_of(full.to_multiset())
}

/// Whether `sub` is a candidate subset for an order of `target` cents among
/// the charges `full`: charges drawn from `full`, in canonical form, whose
/// amounts sum to `target` exactly. An order of 0 cents claims no charge.
pub open spec fn is_fit(sub: Seq<ChargeView>, target: nat, full: Seq<ChargeView>) -> bool {
    &&& canonical(sub)
    &&& drawn_from(sub, full)
    &&& total(sub) == target
    &&& target == 0 ==> sub.len() == 0
}

/// Whether `list` holds the candidate subsets for an order of `target` cents
/// among the charges `full`: every one of them, each once, in ranked order.
pub open spec fn is_candidate_list(
    list: Seq<Seq<ChargeView>>,
    target: nat,
    full: Seq<ChargeView>,
) -> bool {
    &&& strictly_sorted(list, subset_order())
    &&& forall|sub: Seq<ChargeView>| #[trigger] list.contains(sub) <==> is_fit(sub, target, full)
}

/// All the charges that a solution assigns, order after order.
pub open spec fn assigned(solution: Seq<AssignmentView>) -> Seq<ChargeView>
    decreases solution.len(),
{
    if solution.len() == 0 {
        Seq::empty()
    } else {
        assigned(solution.drop_last()) + solution.last().1
    }
}

/// Whether `solution` is a complete, exact allocation of `charges` to
/// `orders`: one assignment per order and in the order of `orders`, each
/// a candidate subset for its order, and together using every charge exactly
/// once.
pub open spec fn is_solution(
    solution: Seq<AssignmentView>,
    orders: Seq<OrderView>,
    charges: Seq<ChargeView>,
) -> bool {
    &&& solution.len() == orders.len()
    &&& forall|i: int|
        0 <= i < solution.len() ==> (#[trigger] solution[i]).0 == orders[i] && is_fit(
            solution[i].1,
            orders[i].value,
            charges,
        )
    &&& assigned(solution).to_multiset() == charges.to_multiset()
}

/// Whether `list` is the solution set for `orders` and `charges`: every
/// solution, each once, in ranked order. With no charges there is nothing to
/// allocate, and the solution set is empty whatever the orders.
pub open spec fn is_solution_set(
    list: Seq<Seq<AssignmentView>>,
    orders: Seq<OrderView>,
    charges: Seq<ChargeView>,
) -> bool {
    &&& strictly_sorted(list, solution_order())
    &&& forall|solution: Seq<AssignmentView>| #[trigger]
        list.contains(solution) <==> charges.len() > 0 && is_solution(solution, orders, charges)
}

/// The solution that takes, for each order, the candidate subset at the
/// chosen position of that order's candidate list.
pub open spec fn built(
    orders: Seq<OrderView>,
    candidates: Seq<Seq<Seq<ChargeView>>>,
    choice: Seq<usize>,
) -> Seq<AssignmentView> {
    Seq::new(choice.len(), |i: int| (orders[i], candidates[i][choice[i] as int]))
}

/// A single charge sums to its own amount.
pub proof fn lemma_total_single(c: ChargeView)
    ensures
        total(seq![c]) == c.value,
{
    assert(seq![c].skip(1) =~= Seq::<ChargeView>::empty());
    assert(total(seq![c].skip(1)) == 0);
}

/// The sum of a concatenation is the sum of the sums.
pub proof fn lemma_total_concat(a: Seq<ChargeView>, b: Seq<ChargeView>)
    ensures
        total(a + b) == total(a) + total(b),
    decreases a.len(),
{
    if a.len() == 0 {
        assert(a + b =~= b);
    } else {
        assert((a + b).skip(1) =~= a.skip(1) + b);
        lemma_total_concat(a.skip(1), b);
    }
}

/// What the single-path search returns sums to the target exactly, is drawn
/// from the charges it was given, and keeps their order.
pub proof fn lemma_greedy_pick_sound(target: nat, s: Seq<ChargeView>)
    requires
        greedy_pick(target, s) is Some,
    ensures
        total(greedy_pick(target, s)->0) == target,
        drawn_from(greedy_pick(target, s)->0, s),
        canonical(s) ==> canonical(greedy_pick(target, s)->0),
        forall|c: ChargeView| #[trigger]
            greedy_pick(target, s)->0.contains(c) ==> s.contains(c),
    decreases s.len(),
{
    broadcast use vstd::multiset::group_multiset_axioms;
    broadcast use vstd::seq_lib::group_to_multiset_ensures;

    let r = greedy_pick(target, s)->0;
    if target == 0 {
        assert(r.len() == 0);
        assert forall|c: ChargeView| r.to_multiset().count(c) == 0 by {
            assert(!r.contains(c));
        }
    } else {
        let tail = s.skip(1);
        assert(s =~= seq![s[0]] + tail);
        lemma_multiset_commutative(seq![s[0]], tail);
        if target < s[0].value {
            lemma_greedy_pick_sound(target, tail);
            assert forall|c: ChargeView| #[trigger] r.contains(c) implies s.contains(c) by {
                let j = choose|j: int| 0 <= j < tail.len() && tail[j] == c;
                assert(s[j + 1] == c);
            }
        } else {
            let t2 = (target - s[0].value) as nat;
            lemma_greedy_pick_sound(t2, tail);
            let rest = greedy_pick(t2, tail)->0;
            assert(r == seq![s[0]] + rest);
            lemma_total_concat(seq![s[0]], rest);
            lemma_total_single(s[0]);
            lemma_multiset_commutative(seq![s[0]], rest);
            assert forall|c: ChargeView| #[trigger] r.contains(c) implies s.contains(c) by {
                let i = choose|i: int| 0 <= i < r.len() && r[i] == c;
                if i == 0 {
                    assert(s[0] == c);
                } else {
                    assert(rest[i - 1] == c);
                    assert(rest.contains(c));
                    let j = choose|j: int| 0 <= j < tail.len() && tail[j] == c;
                    assert(s[j + 1] == c);
                }
            }
            if canonical(s) {
                assert(canonical(tail)) by {
                    assert forall|i: int, j: int| 0 <= i < j < tail.len() implies charge_order()(
                        tail[i],
                        tail[j],
                    ) by {
                        assert(charge_order()(s[i + 1], s[j + 1]));
                    }
                }
                assert forall|i: int, j: int| 0 <= i < j < r.len() implies charge_order()(
                    r[i],
                    r[j],
                ) by {
                    if i == 0 {
                        assert(rest[j - 1] == r[j]);
                        assert(rest.contains(r[j]));
                        assert(tail.contains(r[j]));
                        let k = choose|k: int| 0 <= k < tail.len() && tail[k] == r[j];
                        assert(charge_order()(s[0], s[k + 1]));
                    } else {
                        assert(charge_order()(rest[i - 1], rest[j - 1]));
                    }
                }
            }
        }
    }
}

/// On charges in canonical form whose amounts sum to a target above zero,
/// the single-path search takes every one of them.
pub proof fn lemma_greedy_pick_takes_exact(target: nat, s: Seq<ChargeView>)
    requires
        canonical(s),
        total(s) == target,
        target > 0,
    ensures
        greedy_pick(target, s) == Some(s),
    decreases s.len(),
{
    let tail = s.skip(1);
    assert(s.len() > 0);
    assert(s =~= seq![s[0]] + tail);
    let t2 = (target - s[0].value) as nat;
    assert(canonical(tail)) by {
        assert forall|i: int, j: int| 0 <= i < j < tail.len() implies charge_order()(
            tail[i],
            tail[j],
        ) by {
            assert(charge_order()(s[i + 1], s[j + 1]));
        }
    }
    if t2 == 0 {
        if tail.len() > 0 {
            assert(charge_order()(s[0], s[1]));
            assert(tail[0] == s[1]);
            assert(total(tail) >= tail[0].value);
        }
        assert(tail =~= Seq::<ChargeView>::empty());
        assert(seq![s[0]] + Seq::<ChargeView>::empty() =~= s);
    } else {
        lemma_greedy_pick_takes_exact(t2, tail);
    }
}

} // verus!
