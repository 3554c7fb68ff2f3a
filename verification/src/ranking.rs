//! The total orders under which charges, candidate subsets and solutions are
//! ranked, and the facts about them that the matcher relies on.

use vstd::prelude::*;
use vstd::relations::total_ordering;

use crate::types::{Charge, ChargeView, Order, OrderView};

verus! {

/// How one value stands to another under a total order.
#[derive(Debug, Clone, Copy, PartialEq, Eq, Structural)]
pub enum Rank {
    Before,
    Same,
    After,
}

/// The rank of `a` against `b` under the total order `leq`.
pub open spec fn rank_by<T>(leq: spec_fn(T, T) -> bool, a: T, b: T) -> Rank {
    if a == b {
        Rank::Same
    } else if leq(a, b) {
        Rank::Before
    } else {
        Rank::After
    }
}

/// Lexicographic comparison of two sequences: the first position at which
/// they differ decides, and a proper prefix comes first.
pub open spec fn lex_le<T>(leq: spec_fn(T, T) -> bool, a: Seq<T>, b: Seq<T>) -> bool
    decreases a.len(),
{
    if a.len() == 0 {
        true
    } else if b.len() == 0 {
        false
    } else if a[0] == b[0] {
        lex_le(leq, a.skip(1), b.skip(1))
    } else {
        leq(a[0], b[0])
    }
}

/// The lexicographic order on sequences that `leq` induces, as a relation.
pub open spec fn lex_order<T>(leq: spec_fn(T, T) -> bool) -> spec_fn(Seq<T>, Seq<T>) -> bool {
    |a: Seq<T>, b: Seq<T>| lex_le(leq, a, b)
}

/// Whether `a` comes before `b` under the total order `leq`, and is not `b`.
pub open spec fn precedes<T>(leq: spec_fn(T, T) -> bool, a: T, b: T) -> bool {
    leq(a, b) && a != b
}

/// A sequence in strictly ascending order: sorted, and no value twice.
pub open spec fn strictly_sorted<T>(s: Seq<T>, leq: spec_fn(T, T) -> bool) -> bool {
    forall|i: int, j: int| 0 <= i < j < s.len() ==> #[trigger] precedes(leq, s[i], s[j])
}

proof fn lemma_lex_refl<T>(leq: spec_fn(T, T) -> bool, a: Seq<T>)
    ensures
        lex_le(leq, a, a),
    decreases a.len(),
{
    if a.len() > 0 {
        lemma_lex_refl(leq, a.skip(1));
    }
}

proof fn lemma_lex_antisym<T>(leq: spec_fn(T, T) -> bool, a: Seq<T>, b: Seq<T>)
    requires
        total_ordering(leq),
        lex_le(leq, a, b),
        lex_le(leq, b, a),
    ensures
        a == b,
    decreases a.len(),
{
    if a.len() == 0 {
        assert(b.len() == 0);
        assert(a =~= b);
    } else {
        assert(b.len() > 0);
        if a[0] == b[0] {
            lemma_lex_antisym(leq, a.skip(1), b.skip(1));
            assert(a =~= seq![a[0]] + a.skip(1));
            assert(b =~= seq![b[0]] + b.skip(1));
        } else {
            assert(leq(a[0], b[0]) && leq(b[0], a[0]));
        }
    }
}

proof fn lemma_lex_trans<T>(leq: spec_fn(T, T) -> bool, a: Seq<T>, b: Seq<T>, c: Seq<T>)
    requires
        total_ordering(leq),
        lex_le(leq, a, b),
        lex_le(leq, b, c),
    ensures
        lex_le(leq, a, c),
    decreases a.len(),
{
    if a.len() > 0 {
        assert(b.len() > 0 && c.len() > 0);
        if a[0] == b[0] && b[0] == c[0] {
            lemma_lex_trans(leq, a.skip(1), b.skip(1), c.skip(1));
        } else if a[0] == b[0] {
            assert(leq(a[0], c[0]));
        } else if b[0] == c[0] {
            assert(leq(a[0], c[0]));
        } else {
            assert(leq(a[0], b[0]) && leq(b[0], c[0]));
            assert(leq(a[0], c[0]));
            if a[0] == c[0] {
                assert(leq(b[0], a[0]));
            }
        }
    }
}

proof fn lemma_lex_connected<T>(leq: spec_fn(T, T) -> bool, a: Seq<T>, b: Seq<T>)
    requires
        total_ordering(leq),
    ensures
        lex_le(leq, a, b) || lex_le(leq, b, a),
    decreases a.len(),
{
    if a.len() > 0 && b.len() > 0 {
        if a[0] == b[0] {
            lemma_lex_connected(leq, a.skip(1), b.skip(1));
        } else {
            assert(leq(a[0], b[0]) || leq(b[0], a[0]));
        }
    }
}

/// The lexicographic order induced by a total order is a total order.
pub proof fn lemma_lex_order_total<T>(leq: spec_fn(T, T) -> bool)
    requires
        total_ordering(leq),
    ensures
        total_ordering(lex_order(leq)),
{
    let r = lex_order(leq);
    assert forall|x: Seq<T>| #[trigger] r(x, x) by {
        lemma_lex_refl(leq, x);
    }
    assert forall|x: Seq<T>, y: Seq<T>| #[trigger] r(x, y) && #[trigger] r(y, x) implies x
        == y by {
        lemma_lex_antisym(leq, x, y);
    }
    assert forall|x: Seq<T>, y: Seq<T>, z: Seq<T>| #[trigger] r(x, y) && #[trigger] r(
        y,
        z,
    ) implies r(x, z) by {
        lemma_lex_trans(leq, x, y, z);
    }
    assert forall|x: Seq<T>, y: Seq<T>| #[trigger] r(x, y) || #[trigger] r(y, x) by {
        lemma_lex_connected(leq, x, y);
    }
}

/// Two sequences that agree on their first `k` positions compare as their
/// remainders do.
pub proof fn lemma_lex_common_prefix<T>(leq: spec_fn(T, T) -> bool, a: Seq<T>, b: Seq<T>, k: int)
    requires
        0 <= k <= a.len(),
        k <= b.len(),
        a.take(k) == b.take(k),
    ensures
        lex_le(leq, a, b) == lex_le(leq, a.skip(k), b.skip(k)),
        (a == b) == (a.skip(k) == b.skip(k)),
    decreases k,
{
    if k == 0 {
        assert(a.skip(0) =~= a);
        assert(b.skip(0) =~= b);
    } else {
        assert(a[0] == a.take(k)[0]);
        assert(b[0] == b.take(k)[0]);
        assert(a.skip(1).take(k - 1) =~= a.take(k).skip(1));
        assert(b.skip(1).take(k - 1) =~= b.take(k).skip(1));
        lemma_lex_common_prefix(leq, a.skip(1), b.skip(1), k - 1);
        assert(a.skip(1).skip(k - 1) =~= a.skip(k));
        assert(b.skip(1).skip(k - 1) =~= b.skip(k));
        if a.skip(k) == b.skip(k) {
            assert(a =~= a.take(k) + a.skip(k));
            assert(b =~= b.take(k) + b.skip(k));
        }
    }
}

/// Whether `t` is `s` with `x` put in at position `p`.
pub open spec fn is_insertion<T>(t: Seq<T>, s: Seq<T>, x: T, p: int) -> bool {
    &&& 0 <= p <= s.len()
    &&& t.len() == s.len() + 1
    &&& forall|i: int| 0 <= i < p ==> #[trigger] t[i] == s[i]
    &&& t[p] == x
    &&& forall|i: int| p < i < t.len() ==> #[trigger] t[i] == s[i - 1]
}

/// Putting a new value at its place in a strictly ascending sequence keeps
/// the sequence strictly ascending.
pub proof fn lemma_insertion_strictly_sorted<T>(
    t: Seq<T>,
    s: Seq<T>,
    x: T,
    p: int,
    leq: spec_fn(T, T) -> bool,
)
    requires
        total_ordering(leq),
        strictly_sorted(s, leq),
        is_insertion(t, s, x, p),
        forall|k: int| 0 <= k < p ==> #[trigger] precedes(leq, s[k], x),
        p < s.len() ==> precedes(leq, x, s[p]),
    ensures
        strictly_sorted(t, leq),
{
    assert forall|i: int, j: int| 0 <= i < j < t.len() implies #[trigger] precedes(
        leq,
        t[i],
        t[j],
    ) by {
        if j < p {
            assert(t[i] == s[i] && t[j] == s[j]);
            assert(precedes(leq, s[i], s[j]));
        } else if j == p {
            assert(t[i] == s[i] && t[j] == x);
            assert(precedes(leq, s[i], x));
        } else if i < p {
            assert(t[i] == s[i] && t[j] == s[j - 1]);
            assert(precedes(leq, s[i], s[j - 1]));
        } else if i == p {
            assert(t[i] == x && t[j] == s[j - 1]);
            if j - 1 > p {
                assert(precedes(leq, s[p], s[j - 1]));
                assert(leq(x, s[p]));
                assert(leq(x, s[j - 1]));
                if x == s[j - 1] {
                    assert(leq(s[p], x));
                }
            }
        } else {
            assert(t[i] == s[i - 1] && t[j] == s[j - 1]);
            assert(precedes(leq, s[i - 1], s[j - 1]));
        }
    }
}

/// Putting a value into a sequence adds that value and no other.
pub proof fn lemma_insertion_contains<T>(t: Seq<T>, s: Seq<T>, x: T, p: int)
    requires
        is_insertion(t, s, x, p),
    ensures
        forall|y: T| #[trigger] t.contains(y) <==> s.contains(y) || y == x,
{
    assert forall|y: T| #[trigger] t.contains(y) <==> s.contains(y) || y == x by {
        if t.contains(y) {
            let i = choose|i: int| 0 <= i < t.len() && t[i] == y;
            if i < p {
                assert(s[i] == y);
            } else if i > p {
                assert(s[i - 1] == y);
            }
        }
        if s.contains(y) {
            let i = choose|i: int| 0 <= i < s.len() && s[i] == y;
            if i < p {
                assert(t[i] == y);
            } else {
                assert(t[i + 1] == y);
            }
        }
        if y == x {
            assert(t[p] == y);
        }
    }
}

/// The order of code points on characters.
pub open spec fn char_order() -> spec_fn(char, char) -> bool {
    |a: char, b: char| a as int <= b as int
}

/// Text is ordered lexicographically by code point.
pub open spec fn text_le(a: Seq<char>, b: Seq<char>) -> bool {
    lex_le(char_order(), a, b)
}

/// Charges are ordered by amount, and by label among equal amounts.
pub open spec fn charge_le(a: ChargeView, b: ChargeView) -> bool {
    a.value < b.value || (a.value == b.value && text_le(a.date, b.date))
}

/// [`charge_le`] as a relation.
pub open spec fn charge_order() -> spec_fn(ChargeView, ChargeView) -> bool {
    |a: ChargeView, b: ChargeView| charge_le(a, b)
}

/// Candidate subsets are ordered lexicographically, charge by charge.
pub open spec fn subset_order() -> spec_fn(Seq<ChargeView>, Seq<ChargeView>) -> bool {
    lex_order(charge_order())
}

/// Orders are ordered by label, and by amount among equal labels.
pub open spec fn order_le(a: OrderView, b: OrderView) -> bool {
    (a.name != b.name && text_le(a.name, b.name)) || (a.name == b.name && a.value <= b.value)
}

/// An order together with the charges assigned to it.
pub type AssignmentView = (OrderView, Seq<ChargeView>);

/// Assignments are ordered by order, and by subset for the same order.
pub open spec fn assignment_le(a: AssignmentView, b: AssignmentView) -> bool {
    (a.0 != b.0 && order_le(a.0, b.0)) || (a.0 == b.0 && subset_order()(a.1, b.1))
}

/// [`assignment_le`] as a relation.
pub open spec fn assignment_order() -> spec_fn(AssignmentView, AssignmentView) -> bool {
    |a: AssignmentView, b: AssignmentView| assignment_le(a, b)
}

/// Solutions are ordered lexicographically, assignment by assignment.
pub open spec fn solution_order() -> spec_fn(Seq<AssignmentView>, Seq<AssignmentView>) -> bool {
    lex_order(assignment_order())
}

/// The order on characters is total.
pub proof fn lemma_char_order_total()
    ensures
        total_ordering(char_order()),
{
    let r = char_order();
    assert forall|x: char, y: char| #[trigger] r(x, y) && #[trigger] r(y, x) implies x == y by {
        assert(x as int == y as int);
    }
}

/// The order on text is total.
pub proof fn lemma_text_order_total()
    ensures
        total_ordering(lex_order(char_order())),
{
    lemma_char_order_total();
    lemma_lex_order_total(char_order());
}

/// The order on charges is total.
pub proof fn lemma_charge_order_total()
    ensures
        total_ordering(charge_order()),
{
    lemma_text_order_total();
    let t = lex_order(char_order());
    let r = charge_order();
    assert forall|x: ChargeView| #[trigger] r(x, x) by {
        assert(t(x.date, x.date));
    }
    assert forall|x: ChargeView, y: ChargeView| #[trigger] r(x, y) && #[trigger] r(
        y,
        x,
    ) implies x == y by {
        assert(t(x.date, y.date) && t(y.date, x.date));
    }
    assert forall|x: ChargeView, y: ChargeView, z: ChargeView| #[trigger] r(x, y) && #[trigger] r(
        y,
        z,
    ) implies r(x, z) by {
        if x.value == y.value && y.value == z.value {
            assert(t(x.date, y.date) && t(y.date, z.date));
            assert(t(x.date, z.date));
        }
    }
    assert forall|x: ChargeView, y: ChargeView| #[trigger] r(x, y) || #[trigger] r(y, x) by {
        assert(t(x.date, y.date) || t(y.date, x.date));
    }
}

/// The order on candidate subsets is total.
pub proof fn lemma_subset_order_total()
    ensures
        total_ordering(subset_order()),
{
    lemma_charge_order_total();
    lemma_lex_order_total(charge_order());
}

/// The order on assignments is total.
pub proof fn lemma_assignment_order_total()
    ensures
        total_ordering(assignment_order()),
{
    lemma_text_order_total();
    lemma_subset_order_total();
    let t = lex_order(char_order());
    let s = subset_order();
    let r = assignment_order();
    assert forall|x: AssignmentView| #[trigger] r(x, x) by {
        assert(s(x.1, x.1));
    }
    assert forall|x: AssignmentView, y: AssignmentView| #[trigger] r(x, y) && #[trigger] r(
        y,
        x,
    ) implies x == y by {
        if x.0 != y.0 {
            assert(t(x.0.name, y.0.name) && t(y.0.name, x.0.name));
        } else {
            assert(s(x.1, y.1) && s(y.1, x.1));
        }
    }
    assert forall|x: AssignmentView, y: AssignmentView, z: AssignmentView| #[trigger] r(x, y)
        && #[trigger] r(y, z) implies r(x, z) by {
        if x.0 == y.0 && y.0 == z.0 {
            assert(s(x.1, y.1) && s(y.1, z.1));
            assert(s(x.1, z.1));
        } else {
            lemma_order_le_trans(x.0, y.0, z.0);
            if x.0 == z.0 {
                lemma_order_le_antisym(x.0, y.0);
            }
        }
    }
    assert forall|x: AssignmentView, y: AssignmentView| #[trigger] r(x, y) || #[trigger] r(
        y,
        x,
    ) by {
        assert(t(x.0.name, y.0.name) || t(y.0.name, x.0.name));
        assert(s(x.1, y.1) || s(y.1, x.1));
    }
}

proof fn lemma_order_le_trans(x: OrderView, y: OrderView, z: OrderView)
    requires
        order_le(x, y),
        order_le(y, z),
    ensures
        order_le(x, z),
{
    lemma_text_order_total();
    let t = lex_order(char_order());
    assert(t(x.name, y.name) ==> text_le(x.name, y.name));
    if x.name != y.name && y.name != z.name {
        assert(t(x.name, y.name) && t(y.name, z.name));
        assert(t(x.name, z.name));
        if x.name == z.name {
            assert(t(y.name, x.name));
        }
    }
}

proof fn lemma_order_le_antisym(x: OrderView, y: OrderView)
    requires
        order_le(x, y),
        order_le(y, x),
    ensures
        x == y,
{
    lemma_text_order_total();
    let t = lex_order(char_order());
    if x.name != y.name {
        assert(t(x.name, y.name) && t(y.name, x.name));
    }
}

/// The order on solutions is total.
pub proof fn lemma_solution_order_total()
    ensures
        total_ordering(solution_order()),
{
    lemma_assignment_order_total();
    lemma_lex_order_total(assignment_order());
}

/// Ranks one text against another with `str::cmp` of the standard library,
/// which orders strings lexicographically by code point. Trusted: the result
/// is the rank under [`char_order`] taken lexicographically.
#[verifier::external_body]
fn rank_text(a: &str, b: &str) -> (r: Rank)
    ensures
        r == rank_by(lex_order(char_order()), a@, b@),
{
    match a.cmp(b) {
        std::cmp::Ordering::Less => Rank::Before,
        std::cmp::Ordering::Equal => Rank::Same,
        std::cmp::Ordering::Greater => Rank::After,
    }
}

/// Ranks one charge against another: by amount, then by label.
pub fn rank_charges(a: &Charge, b: &Charge) -> (r: Rank)
    ensures
        r == rank_by(charge_order(), a@, b@),
{
    if a.value() < b.value() {
        Rank::Before
    } else if a.value() > b.value() {
        Rank::After
    } else {
        rank_text(a.date(), b.date())
    }
}

/// Ranks one order against another: by label, then by amount.
pub fn rank_orders(a: &Order, b: &Order) -> (r: Rank)
    ensures
        r == rank_by(|x: OrderView, y: OrderView| order_le(x, y), a@, b@),
{
    match rank_text(a.name(), b.name()) {
        Rank::Before => Rank::Before,
        Rank::After => Rank::After,
        Rank::Same => {
            if a.value() < b.value() {
                Rank::Before
            } else if a.value() > b.value() {
                Rank::After
            } else {
                Rank::Same
            }
        },
    }
}

/// Ranks one candidate subset against another, charge by charge.
pub fn rank_subsets(a: &Vec<Charge>, b: &Vec<Charge>) -> (r: Rank)
    ensures
        r == rank_by(subset_order(), a.deep_view(), b.deep_view()),
{
    let ghost av = a.deep_view();
    let ghost bv = b.deep_view();
    let mut i: usize = 0;
    while i < a.len() && i < b.len()
        invariant
            av == a.deep_view(),
            bv == b.deep_view(),
            i <= a.len(),
            i <= b.len(),
            av.take(i as int) == bv.take(i as int),
        decreases a.len() - i,
    {
        proof {
            lemma_lex_common_prefix(charge_order(), av, bv, i as int);
        }
        match rank_charges(&a[i], &b[i]) {
            Rank::Before => {
                return Rank::Before;
            },
            Rank::After => {
                return Rank::After;
            },
            Rank::Same => {},
        }
        assert(av.take(i + 1) =~= av.take(i as int).push(av[i as int]));
        assert(bv.take(i + 1) =~= bv.take(i as int).push(bv[i as int]));
        i = i + 1;
    }
    proof {
        lemma_lex_common_prefix(charge_order(), av, bv, i as int);
    }
    if i < b.len() {
        Rank::Before
    } else if i < a.len() {
        Rank::After
    } else {
        assert(av.skip(i as int) =~= bv.skip(i as int));
        Rank::Same
    }
}

/// Ranks one assignment against another: by order, then by subset.
pub fn rank_assignments(a: &(Order, Vec<Charge>), b: &(Order, Vec<Charge>)) -> (r: Rank)
    ensures
        r == rank_by(assignment_order(), a.deep_view(), b.deep_view()),
{
    match rank_orders(&a.0, &b.0) {
        Rank::Before => Rank::Before,
        Rank::After => Rank::After,
        Rank::Same => rank_subsets(&a.1, &b.1),
    }
}

/// Ranks one solution against another, assignment by assignment.
pub fn rank_solutions(a: &Vec<(Order, Vec<Charge>)>, b: &Vec<(Order, Vec<Charge>)>) -> (r: Rank)
    ensures
        r == rank_by(solution_order(), a.deep_view(), b.deep_view()),
{
    let ghost av = a.deep_view();
    let ghost bv = b.deep_view();
    let mut i: usize = 0;
    while i < a.len() && i < b.len()
        invariant
            av == a.deep_view(),
            bv == b.deep_view(),
            i <= a.len(),
            i <= b.len(),
            av.take(i as int) == bv.take(i as int),
        decreases a.len() - i,
    {
        proof {
            lemma_lex_common_prefix(assignment_order(), av, bv, i as int);
        }
        match rank_assignments(&a[i], &b[i]) {
            Rank::Before => {
                return Rank::Before;
            },
            Rank::After => {
                return Rank::After;
            },
            Rank::Same => {},
        }
        assert(av.take(i + 1) =~= av.take(i as int).push(av[i as int]));
        assert(bv.take(i + 1) =~= bv.take(i as int).push(bv[i as int]));
        i = i + 1;
    }
    proof {
        lemma_lex_common_prefix(assignment_order(), av, bv, i as int);
    }
    if i < b.len() {
        Rank::Before
    } else if i < a.len() {
        Rank::After
    } else {
        assert(av.skip(i as int) =~= bv.skip(i as int));
        Rank::Same
    }
}

} // verus!
