//! Sub-collections of a sequence, given by the positions selected: how they
//! relate to the sequence as multisets and under a total order.

use vstd::prelude::*;
use vstd::relations::{sorted_by, total_ordering};
use vstd::seq_lib::to_multiset_build;

use crate::choices::is_selection;
use crate::types::Charge;

verus! {

/// The values of `full` at the selected positions, in the order of the
/// selection.
pub open spec fn pick<T>(full: Seq<T>, sel: Seq<usize>) -> Seq<T> {
    Seq::new(sel.len(), |j: int| full[sel[j] as int])
}

/// What is picked from a sorted sequence is sorted.
pub proof fn lemma_pick_sorted<T>(full: Seq<T>, sel: Seq<usize>, leq: spec_fn(T, T) -> bool)
    requires
        sorted_by(full, leq),
        is_selection(sel, full.len()),
    ensures
        sorted_by(pick(full, sel), leq),
{
    let sub = pick(full, sel);
    assert forall|i: int, j: int| 0 <= i < j < sub.len() implies #[trigger] leq(sub[i], sub[j]) by {
        assert(sel[i] < sel[j]);
        assert(sel[j] < full.len());
        assert(leq(full[sel[i] as int], full[sel[j] as int]));
    }
}

/// What is picked from a sequence holds no value more often than the
/// sequence does.
pub proof fn lemma_pick_drawn<T>(full: Seq<T>, sel: Seq<usize>)
    requires
        is_selection(sel, full.len()),
    ensures
        pick(full, sel).to_multiset().subset_of(full.to_multiset()),
    decreases full.len(),
{
    broadcast use vstd::multiset::group_multiset_axioms;
    broadcast use vstd::seq_lib::group_to_multiset_ensures;

    let sub = pick(full, sel);
    if sel.len() == 0 {
        assert forall|a: T| sub.to_multiset().count(a) == 0 by {
            assert(!sub.contains(a));
        }
    } else {
        let n = full.len();
        assert(sel[sel.len() - 1] < n);
        let init = full.drop_last();
        assert(full =~= init.push(full.last()));
        to_multiset_build(init, full.last());
        if sel.last() == n - 1 {
            let sel0 = sel.drop_last();
            assert(is_selection(sel0, init.len())) by {
                assert forall|j: int| 0 <= j < sel0.len() implies #[trigger] sel0[j]
                    < init.len() by {
                    assert(sel[j] < sel[sel.len() - 1]);
                }
            }
            lemma_pick_drawn(init, sel0);
            assert(sub =~= pick(init, sel0).push(full.last()));
            to_multiset_build(pick(init, sel0), full.last());
        } else {
            assert(is_selection(sel, init.len())) by {
                assert forall|j: int| 0 <= j < sel.len() implies #[trigger] sel[j] < init.len() by {
                    if j < sel.len() - 1 {
                        assert(sel[j] < sel[sel.len() - 1]);
                    }
                }
            }
            lemma_pick_drawn(init, sel);
            assert(sub =~= pick(init, sel));
        }
    }
}

/// A sorted sequence drawn from a sorted sequence can be picked from it:
/// there is a selection of positions at which it stands.
pub proof fn lemma_sorted_drawn_is_picked<T>(
    sub: Seq<T>,
    full: Seq<T>,
    leq: spec_fn(T, T) -> bool,
) -> (sel: Seq<usize>)
    requires
        total_ordering(leq),
        sorted_by(sub, leq),
        sorted_by(full, leq),
        sub.to_multiset().subset_of(full.to_multiset()),
        full.len() <= usize::MAX,
    ensures
        is_selection(sel, full.len()),
        pick(full, sel) == sub,
    decreases full.len(),
{
    broadcast use vstd::multiset::group_multiset_axioms;
    broadcast use vstd::seq_lib::group_to_multiset_ensures;

    if full.len() == 0 {
        if sub.len() > 0 {
            assert(sub.contains(sub[0]));
            assert(full.to_multiset().count(sub[0]) > 0);
            assert(full.contains(sub[0]));
        }
        let sel = Seq::<usize>::empty();
        assert(pick(full, sel) =~= sub);
        sel
    } else {
        let n = full.len();
        let last = full.last();
        let init = full.drop_last();
        assert(full =~= init.push(last));
        to_multiset_build(init, last);
        assert(sorted_by(init, leq)) by {
            assert forall|i: int, j: int| 0 <= i < j < init.len() implies #[trigger] leq(
                init[i],
                init[j],
            ) by {
                assert(leq(full[i], full[j]));
            }
        }
        if sub.len() > 0 && sub.last() == last {
            let sub0 = sub.drop_last();
            assert(sub =~= sub0.push(last));
            to_multiset_build(sub0, last);
            assert(sorted_by(sub0, leq)) by {
                assert forall|i: int, j: int| 0 <= i < j < sub0.len() implies #[trigger] leq(
                    sub0[i],
                    sub0[j],
                ) by {
                    assert(leq(sub[i], sub[j]));
                }
            }
            assert forall|a: T| sub0.to_multiset().count(a) <= init.to_multiset().count(a) by {
                assert(sub.to_multiset().count(a) <= full.to_multiset().count(a));
            }
            let sel0 = lemma_sorted_drawn_is_picked(sub0, init, leq);
            let sel = sel0.push((n - 1) as usize);
            assert(pick(full, sel) =~= sub);
            sel
        } else {
            assert(sub.to_multiset().count(last) == 0) by {
                if sub.contains(last) {
                    let i = choose|i: int| 0 <= i < sub.len() && sub[i] == last;
                    let top = sub.last();
                    if i < sub.len() - 1 {
                        assert(leq(sub[i], sub[sub.len() - 1]));
                    }
                    assert(leq(last, top));
                    assert(sub.contains(top));
                    assert(full.to_multiset().count(top) > 0);
                    assert(full.contains(top));
                    let j = choose|j: int| 0 <= j < full.len() && full[j] == top;
                    if j < n - 1 {
                        assert(leq(full[j], full[n - 1]));
                    }
                    assert(leq(top, last));
                }
            }
            assert forall|a: T| sub.to_multiset().count(a) <= init.to_multiset().count(a) by {
                assert(sub.to_multiset().count(a) <= full.to_multiset().count(a));
            }
            let sel = lemma_sorted_drawn_is_picked(sub, init, leq);
            assert(pick(full, sel) =~= sub);
            sel
        }
    }
}

/// Copies out the charges at the selected positions.
pub fn pick_charges(charges: &Vec<Charge>, sel: &Vec<usize>) -> (r: Vec<Charge>)
    requires
        is_selection(sel@, charges.len() as nat),
    ensures
        r.deep_view() == pick(charges.deep_view(), sel@),
{
    let mut picked: Vec<Charge> = Vec::new();
    let mut j: usize = 0;
    while j < sel.len()
        invariant
            j <= sel.len(),
            is_selection(sel@, charges.len() as nat),
            picked.len() == j,
            forall|k: int| 0 <= k < j ==> #[trigger] picked[k]@ == charges[sel[k] as int]@,
        decreases sel.len() - j,
    {
        assert(sel@[j as int] < charges.len());
        picked.push(charges[sel[j]].clone());
        j = j + 1;
    }
    assert(picked.deep_view() =~= pick(charges.deep_view(), sel@));
    picked
}

} // verus!
