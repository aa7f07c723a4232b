//! Properties of every state the search passes through.
use vstd::prelude::*;
use crate::data::{Assignment, Clause, State, formula_of};
use crate::dpll::assigned;
use crate::search::{consistent, control_ok, matches_trail, polarity_ok, search_inv, trail_value};
use crate::model::{
    free, is_lit, lit_sum, live_sum, lits_in_range, n_false, n_true, on, trail_ok, var_of,
    lemma_counts_empty, lemma_trail_consistent,
};
use crate::nvec::NVec;

verus! {

/// Number of literal occurrences of `c` that the assignment gives the value `v`.
pub open spec fn count_value(c: Seq<isize>, a: NVec<Assignment>, v: Assignment) -> nat
    decreases c.len(),
{
    if c.len() == 0 {
        0
    } else {
        count_value(c.drop_last(), a, v) + if a[c.last() as int] == v {
            1nat
        } else {
            0nat
        }
    }
}

/// Sum of the literal occurrences of `c` that the assignment leaves unassigned.
pub open spec fn unassigned_sum(c: Seq<isize>, a: NVec<Assignment>) -> int
    decreases c.len(),
{
    if c.len() == 0 {
        0
    } else {
        unassigned_sum(c.drop_last(), a) + if a[c.last() as int] == Assignment::Unassigned {
            c.last() as int
        } else {
            0
        }
    }
}

/// A variable and its negation are both unassigned, or one is true and the
/// other false.
pub proof fn lemma_dual_polarity(cs: Seq<Clause>, st: State, v: int)
    requires
        search_inv(cs, st),
        1 <= v <= st.assignments.half(),
    ensures
        (st.assignments[v] == Assignment::Unassigned && st.assignments[-v] == Assignment::Unassigned)
            || (st.assignments[v] == Assignment::True && st.assignments[-v] == Assignment::False)
            || (st.assignments[v] == Assignment::False && st.assignments[-v] == Assignment::True),
{
    let t = st.trail@;
    let n = st.assignments.half() as int;
    assert(st.assignments.in_range(v) && st.assignments.in_range(-v));
    assert(st.assignments[v] == trail_value(t, v));
    assert(st.assignments[-v] == trail_value(t, -v));
    if on(t, v) {
        lemma_trail_consistent(t, n, v);
    }
    if on(t, -v) {
        lemma_trail_consistent(t, n, -v);
    }
}

proof fn lemma_values_along(c: Seq<isize>, a: NVec<Assignment>, t: Seq<isize>, n: int)
    requires
        trail_ok(t, n),
        a.half() == n,
        matches_trail(a, t),
        forall|j: int| 0 <= j < c.len() ==> is_lit(#[trigger] c[j] as int, n),
    ensures
        n_true(c, t) == count_value(c, a, Assignment::True),
        n_false(c, t) == count_value(c, a, Assignment::False),
        count_value(c, a, Assignment::True) == 0 ==> live_sum(c, t) == unassigned_sum(c, a),
    decreases c.len(),
{
    if c.len() > 0 {
        let d = c.drop_last();
        assert forall|j: int| 0 <= j < d.len() implies is_lit(#[trigger] d[j] as int, n) by {
            assert(d[j] == c[j]);
        }
        lemma_values_along(d, a, t, n);
        let x = c.last() as int;
        assert(is_lit(c[c.len() - 1] as int, n));
        assert(a.in_range(x));
        assert(a[x] == trail_value(t, x));
        if on(t, x) {
            lemma_trail_consistent(t, n, x);
        }
    }
}

/// The counters of every clause count its true and false literals under the
/// assignment, and while no literal of a clause is true its sum is the sum of
/// its unassigned literals.
pub proof fn lemma_counters_consistent(cs: Seq<Clause>, st: State, i: int)
    requires
        search_inv(cs, st),
        0 <= i < cs.len(),
    ensures
        cs[i].num_true == count_value(cs[i].literals@, st.assignments, Assignment::True),
        cs[i].num_false == count_value(cs[i].literals@, st.assignments, Assignment::False),
        cs[i].num_true == 0 ==> cs[i].sum == unassigned_sum(cs[i].literals@, st.assignments),
{
    let f = formula_of(cs);
    let n = st.assignments.half() as int;
    assert(f[i] == cs[i].literals@);
    assert(cs[i].counts_match(st.trail@));
    assert forall|j: int| 0 <= j < f[i].len() implies is_lit(#[trigger] f[i][j] as int, n) by {
        assert(lits_in_range(f, n));
        assert(is_lit(f[i][j] as int, n));
    }
    lemma_values_along(f[i], st.assignments, st.trail@, n);
}

/// Every trail literal is true, and no variable stands on the trail twice.
pub proof fn lemma_trail_discipline(cs: Seq<Clause>, st: State)
    requires
        search_inv(cs, st),
    ensures
        forall|q: int| 0 <= q < st.trail@.len() ==> st.assignments[#[trigger] st.trail@[q] as int] == Assignment::True,
        forall|p: int, q: int|
            0 <= p < q < st.trail@.len() ==> var_of(#[trigger] st.trail@[p] as int) != var_of(
                #[trigger] st.trail@[q] as int,
            ),
{
    let t = st.trail@;
    let n = st.assignments.half() as int;
    assert forall|q: int| 0 <= q < t.len() implies st.assignments[#[trigger] t[q] as int] == Assignment::True by {
        assert(is_lit(t[q] as int, n));
        assert(st.assignments[t[q] as int] == trail_value(t, t[q] as int));
        assert(on(t, t[q] as int));
    }
}

/// The control stack is strictly increasing, each entry at most the trail
/// length, and it holds one entry per decision level.
pub proof fn lemma_control_discipline(cs: Seq<Clause>, st: State)
    requires
        search_inv(cs, st),
    ensures
        forall|i: int, j: int| 0 <= i < j < st.control@.len() ==> st.control@[i] < st.control@[j],
        forall|i: int| 0 <= i < st.control@.len() ==> #[trigger] st.control@[i] <= st.trail@.len(),
        st.control@.len() == st.level,
{
    assert(control_ok(st.control@, st.trail@.len() as int));
}

/// With the trail emptied, every clause is back to its initial counters and
/// every literal is unassigned.
pub proof fn lemma_empty_trail(cs: Seq<Clause>, refs: NVec<Vec<usize>>, a: NVec<Assignment>)
    requires
        consistent(cs, refs, a, Seq::empty()),
    ensures
        forall|i: int|
            0 <= i < cs.len() ==> #[trigger] cs[i].num_true == 0 && cs[i].num_false == 0 && cs[i].sum
                == lit_sum(cs[i].literals@),
        forall|l: int| a.in_range(l) ==> #[trigger] a[l] == Assignment::Unassigned,
{
    assert forall|i: int| 0 <= i < cs.len() implies #[trigger] cs[i].num_true == 0 && cs[i].num_false == 0
        && cs[i].sum == lit_sum(cs[i].literals@) by {
        assert(cs[i].counts_match(Seq::empty()));
        lemma_counts_empty(cs[i].literals@);
    }
    assert forall|l: int| a.in_range(l) implies #[trigger] a[l] == Assignment::Unassigned by {
        assert(a[l] == trail_value(Seq::empty(), l));
        assert(free(Seq::empty(), l));
    }
}

/// Assigning an unassigned literal keeps the polarities of every variable
/// dual.
pub proof fn lemma_assign_keeps_polarity(a: NVec<Assignment>, b: NVec<Assignment>, l: int)
    requires
        a.wf(),
        polarity_ok(a),
        a.in_range(l),
        a[l] == Assignment::Unassigned,
        assigned(a, b, l),
    ensures
        polarity_ok(b),
{
    let v0 = if l > 0 { l } else { -l };
    assert(a[v0] == Assignment::Unassigned || a[-v0] == Assignment::Unassigned);
    assert(a[-l] == Assignment::Unassigned);
    assert forall|v: int| 1 <= v <= b.half() implies {
        ||| (#[trigger] b[v] == Assignment::Unassigned && b[-v] == Assignment::Unassigned)
        ||| (b[v] == Assignment::True && b[-v] == Assignment::False)
        ||| (b[v] == Assignment::False && b[-v] == Assignment::True)
    } by {
        assert(a[v] == Assignment::Unassigned && a[-v] == Assignment::Unassigned || a[v]
            == Assignment::True && a[-v] == Assignment::False || a[v] == Assignment::False && a[-v]
            == Assignment::True);
        if v != l && v != -l {
            assert(b[v] == a[v] && b[-v] == a[-v]);
        }
    }
}

/// Assigning an unassigned literal and pushing it keeps every trail literal
/// true and every variable on the trail at most once.
pub proof fn lemma_assign_keeps_trail(a: NVec<Assignment>, b: NVec<Assignment>, t: Seq<isize>, l: isize)
    requires
        a.wf(),
        polarity_ok(a),
        a.in_range(l as int),
        a[l as int] == Assignment::Unassigned,
        assigned(a, b, l as int),
        forall|q: int| 0 <= q < t.len() ==> a.in_range(#[trigger] t[q] as int),
        forall|q: int| 0 <= q < t.len() ==> a[#[trigger] t[q] as int] == Assignment::True,
        forall|p: int, q: int|
            0 <= p < q < t.len() ==> var_of(#[trigger] t[p] as int) != var_of(#[trigger] t[q] as int),
    ensures
        forall|q: int| 0 <= q < t.len() + 1 ==> b[#[trigger] t.push(l)[q] as int] == Assignment::True,
        forall|p: int, q: int|
            0 <= p < q < t.len() + 1 ==> var_of(#[trigger] t.push(l)[p] as int) != var_of(
                #[trigger] t.push(l)[q] as int,
            ),
{
    let t2 = t.push(l);
    let v0 = if l > 0 { l as int } else { -l };
    assert(a[v0] == Assignment::Unassigned || a[-v0] == Assignment::Unassigned);
    assert(a[-l] == Assignment::Unassigned);
    assert forall|q: int| 0 <= q < t.len() + 1 implies b[#[trigger] t2[q] as int] == Assignment::True by {
        if q < t.len() {
            assert(t2[q] == t[q]);
            assert(a[t[q] as int] == Assignment::True);
            assert(b[t[q] as int] == a[t[q] as int]);
        }
    }
    assert forall|p: int, q: int| 0 <= p < q < t.len() + 1 implies var_of(#[trigger] t2[p] as int)
        != var_of(#[trigger] t2[q] as int) by {
        assert(t2[p] == t[p]);
        if q < t.len() {
            assert(t2[q] == t[q]);
        } else {
            assert(a[t[p] as int] == Assignment::True);
        }
    }
}

} // verus!
