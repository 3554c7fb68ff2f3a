//! What holds of every run of the matcher, proved from the contracts of its
//! functions.

use vstd::prelude::*;
use vstd::relations::total_ordering;

use crate::fit::{
    assigned, canonical, greedy_pick, is_candidate_list, is_fit, is_solution, is_solution_set,
    lemma_greedy_pick_sound, total,
};
use crate::ranking::{
    lemma_solution_order_total, lemma_subset_order_total, precedes, solution_order,
    strictly_sorted, subset_order, AssignmentView,
};
use crate::text::{
    decimal, digit_char, digit_value, is_digit, is_numeral, item_of, number_of, numeral_value,
    ParseError,
};
use crate::types::{ChargeView, OrderView};

verus! {

/// Two strictly ascending sequences that hold the same values are the same
/// sequence.
pub proof fn lemma_strictly_sorted_unique<T>(a: Seq<T>, b: Seq<T>, leq: spec_fn(T, T) -> bool)
    requires
        total_ordering(leq),
        strictly_sorted(a, leq),
        strictly_sorted(b, leq),
        forall|x: T| a.contains(x) <==> b.contains(x),
    ensures
        a == b,
    decreases a.len(),
{
    if a.len() == 0 {
        if b.len() > 0 {
            assert(b.contains(b[0]));
            assert(a.contains(b[0]));
        }
        assert(a =~= b);
    } else {
        assert(a.contains(a[0]));
        assert(b.contains(a[0]));
        assert(b.contains(b[0]));
        assert(a.contains(b[0]));
        let i = choose|i: int| 0 <= i < a.len() && a[i] == b[0];
        let j = choose|j: int| 0 <= j < b.len() && b[j] == a[0];
        if i > 0 {
            assert(precedes(leq, a[0], a[i]));
        }
        if j > 0 {
            assert(precedes(leq, b[0], b[j]));
        }
        assert(leq(a[0], b[0]) && leq(b[0], a[0]));
        assert(a[0] == b[0]);
        let ta = a.skip(1);
        let tb = b.skip(1);
        assert(strictly_sorted(ta, leq)) by {
            assert forall|i: int, j: int| 0 <= i < j < ta.len() implies #[trigger] precedes(
                leq,
                ta[i],
                ta[j],
            ) by {
                assert(precedes(leq, a[i + 1], a[j + 1]));
            }
        }
        assert(strictly_sorted(tb, leq)) by {
            assert forall|i: int, j: int| 0 <= i < j < tb.len() implies #[trigger] precedes(
                leq,
                tb[i],
                tb[j],
            ) by {
                assert(precedes(leq, b[i + 1], b[j + 1]));
            }
        }
        assert forall|x: T| ta.contains(x) <==> tb.contains(x) by {
            if ta.contains(x) {
                let k = choose|k: int| 0 <= k < ta.len() && ta[k] == x;
                assert(a[k + 1] == x);
                assert(precedes(leq, a[0], a[k + 1]));
                assert(a.contains(x));
                assert(b.contains(x));
                let m = choose|m: int| 0 <= m < b.len() && b[m] == x;
                assert(tb[m - 1] == x);
            }
            if tb.contains(x) {
                let k = choose|k: int| 0 <= k < tb.len() && tb[k] == x;
                assert(b[k + 1] == x);
                assert(precedes(leq, b[0], b[k + 1]));
                assert(b.contains(x));
                assert(a.contains(x));
                let m = choose|m: int| 0 <= m < a.len() && a[m] == x;
                assert(ta[m - 1] == x);
            }
        }
        lemma_strictly_sorted_unique(ta, tb, leq);
        assert(a =~= seq![a[0]] + ta);
        assert(b =~= seq![b[0]] + tb);
    }
}

/// With no charges the solution set is empty, whatever the orders.
pub proof fn lemma_no_charges_no_solution(list: Seq<Seq<AssignmentView>>, orders: Seq<OrderView>)
    requires
        is_solution_set(list, orders, Seq::<ChargeView>::empty()),
    ensures
        list.len() == 0,
{
    if list.len() > 0 {
        assert(list.contains(list[0]));
    }
}

/// Every solution of a solution set uses every charge exactly once: the
/// charges it assigns, taken together, are the charges that were given, none
/// twice and none left out.
pub proof fn lemma_solution_uses_every_charge_once(
    list: Seq<Seq<AssignmentView>>,
    orders: Seq<OrderView>,
    charges: Seq<ChargeView>,
    k: int,
)
    requires
        is_solution_set(list, orders, charges),
        0 <= k < list.len(),
    ensures
        assigned(list[k]).to_multiset() == charges.to_multiset(),
{
    assert(list.contains(list[k]));
}

/// In every solution of a solution set, the charges assigned to an order sum
/// to the amount of that order exactly.
pub proof fn lemma_solution_pays_every_order(
    list: Seq<Seq<AssignmentView>>,
    orders: Seq<OrderView>,
    charges: Seq<ChargeView>,
    k: int,
    i: int,
)
    requires
        is_solution_set(list, orders, charges),
        0 <= k < list.len(),
        0 <= i < orders.len(),
    ensures
        list[k].len() == orders.len(),
        list[k][i].0 == orders[i],
        total(list[k][i].1) == orders[i].value,
{
    assert(list.contains(list[k]));
    assert(is_solution(list[k], orders, charges));
    assert(is_fit(list[k][i].1, orders[i].value, charges));
}

/// Matching is repeatable: the orders and the charges fix the solution set,
/// the solutions and their rank, and the order in which the charges are
/// handed in does not matter.
pub proof fn lemma_solution_set_unique(
    first: Seq<Seq<AssignmentView>>,
    second: Seq<Seq<AssignmentView>>,
    orders: Seq<OrderView>,
    charges: Seq<ChargeView>,
    reordered: Seq<ChargeView>,
)
    requires
        is_solution_set(first, orders, charges),
        is_solution_set(second, orders, reordered),
        charges.to_multiset() == reordered.to_multiset(),
    ensures
        first == second,
{
    vstd::seq_lib::to_multiset_len(charges);
    vstd::seq_lib::to_multiset_len(reordered);
    lemma_solution_order_total();
    assert forall|solution: Seq<AssignmentView>| is_solution(solution, orders, charges)
        == is_solution(solution, orders, reordered) by {}
    assert forall|solution: Seq<AssignmentView>| first.contains(solution) <==> second.contains(
        solution,
    ) by {}
    lemma_strictly_sorted_unique(first, second, solution_order());
}

/// The candidate subsets of an order are fixed by its amount and by the
/// charges, in whatever order the charges are handed in.
pub proof fn lemma_candidate_list_unique(
    first: Seq<Seq<ChargeView>>,
    second: Seq<Seq<ChargeView>>,
    target: nat,
    charges: Seq<ChargeView>,
    reordered: Seq<ChargeView>,
)
    requires
        is_candidate_list(first, target, charges),
        is_candidate_list(second, target, reordered),
        charges.to_multiset() == reordered.to_multiset(),
    ensures
        first == second,
{
    lemma_subset_order_total();
    assert forall|sub: Seq<ChargeView>| first.contains(sub) <==> second.contains(sub) by {}
    lemma_strictly_sorted_unique(first, second, subset_order());
}

/// An order that owes nothing is paid by the empty subset, whatever the
/// charges, and by no other subset.
pub proof fn lemma_zero_order_is_paid_by_nothing(sub: Seq<ChargeView>, charges: Seq<ChargeView>)
    ensures
        is_fit(sub, 0, charges) <==> sub == Seq::<ChargeView>::empty(),
{
    broadcast use vstd::multiset::group_multiset_axioms;
    broadcast use vstd::seq_lib::group_to_multiset_ensures;

    let none = Seq::<ChargeView>::empty();
    assert forall|c: ChargeView| none.to_multiset().count(c) == 0 by {
        assert(!none.contains(c));
    }
    assert(is_fit(none, 0, charges));
    if is_fit(sub, 0, charges) {
        assert(sub =~= none);
    }
}

/// What the single-path search finds among charges in canonical form is one
/// of the candidate subsets: the search and the enumeration agree on what
/// pays an order exactly.
pub proof fn lemma_search_finds_a_candidate(
    target: nat,
    charges: Seq<ChargeView>,
    list: Seq<Seq<ChargeView>>,
)
    requires
        canonical(charges),
        greedy_pick(target, charges) is Some,
        is_candidate_list(list, target, charges),
    ensures
        list.contains(greedy_pick(target, charges)->0),
{
    lemma_greedy_pick_sound(target, charges);
    let taken = greedy_pick(target, charges)->0;
    assert(is_fit(taken, target, charges));
}

/// The decimal numeral of a number is a numeral, and stands for that number.
pub proof fn lemma_decimal_reads_back(n: nat)
    ensures
        is_numeral(decimal(n)),
        numeral_value(decimal(n)) == n,
    decreases n,
{
    let s = decimal(n);
    if n < 10 {
        assert(s.len() == 1);
        assert(s[0] == digit_char(n));
        assert(is_digit(s[0]) && digit_value(s[0]) == n);
        assert(s.drop_last() =~= Seq::<char>::empty());
        assert(numeral_value(s.drop_last()) == 0);
    } else {
        lemma_decimal_reads_back(n / 10);
        let head = decimal(n / 10);
        let d = digit_char(n % 10);
        assert(s == head.push(d));
        assert(is_digit(d) && digit_value(d) == n % 10);
        assert(s.drop_last() =~= head);
        assert forall|i: int| 0 <= i < s.len() implies is_digit(#[trigger] s[i]) by {
            if i < head.len() {
                assert(s[i] == head[i]);
            }
        }
    }
}

/// What is written of an amount reads back as that amount: once the text of
/// an item has been split into its label, its units and its hundredths, the
/// item read off these groups has the label and the amount that were
/// written.
pub proof fn lemma_written_amount_reads_back(whole: Seq<char>, id: Seq<char>, value: nat)
    requires
        value <= u32::MAX,
    ensures
        item_of(
            Some(
                seq![
                    Some(whole),
                    Some(id),
                    Some(decimal(value / 100)),
                    Some(seq![digit_char(value % 100 / 10), digit_char(value % 10)]),
                ],
            ),
        ) == Ok::<(Seq<char>, nat), ParseError>((id, value)),
{
    let units = decimal(value / 100);
    let tens = digit_char(value % 100 / 10);
    let ones = digit_char(value % 10);
    let hundredths = seq![tens, ones];
    lemma_decimal_reads_back(value / 100);
    assert(is_digit(tens) && digit_value(tens) == value % 100 / 10);
    assert(is_digit(ones) && digit_value(ones) == value % 10);
    assert(is_numeral(hundredths));
    assert(hundredths.drop_last() =~= seq![tens]);
    assert(seq![tens].drop_last() =~= Seq::<char>::empty());
    assert(numeral_value(seq![tens].drop_last()) == 0);
    assert(numeral_value(seq![tens]) == value % 100 / 10);
    assert(numeral_value(hundredths) == value % 100);
    assert(number_of(units) == Ok::<nat, ParseError>(value / 100));
    assert(number_of(hundredths) == Ok::<nat, ParseError>(value % 100));
}

} // verus!
