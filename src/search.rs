//! The invariant of the search, and what each step needs to keep it.
//!
//! The assignment and the clause counters are those the trail gives; every
//! trail literal is implied by the formula and the decisions at or before
//! it; propagation had reached a fixpoint when each decision was taken; and
//! every clause that propagation still has to look at is queued behind the
//! propagation cursor.
use vstd::prelude::*;
use crate::data::{Assignment, Clause, State, Status, formula_of};
use crate::dpll::{
    after_assign, after_unassign, assign_fits, assigned, refs_in_bounds, status_of, unassign_fits,
    unassigned,
};
use crate::model::{
    clause_holds, count_lit, count_ref, fixpoint, free, holds, is_model, lits_in_range, n_false,
    n_true, on, pending, trail_ok, lemma_all_false, lemma_counts_bounded, lemma_counts_push,
    lemma_holds_neg, lemma_on_push, lemma_on_take, lemma_trail_consistent, lemma_trail_last,
    lemma_trail_push,
};
use crate::nvec::NVec;

verus! {

/// The value the trail gives a literal.
pub open spec fn trail_value(t: Seq<isize>, l: int) -> Assignment {
    if on(t, l) {
        Assignment::True
    } else if on(t, -l) {
        Assignment::False
    } else {
        Assignment::Unassigned
    }
}

/// The assignment gives every literal the value the trail gives it.
pub open spec fn matches_trail(a: NVec<Assignment>, t: Seq<isize>) -> bool {
    forall|l: int| a.in_range(l) ==> #[trigger] a[l] == trail_value(t, l)
}

/// The references list each clause index once per occurrence of the literal
/// in that clause, and nothing else.
pub open spec fn refs_exact(refs: NVec<Vec<usize>>, f: Seq<Seq<isize>>) -> bool {
    &&& refs_in_bounds(refs, f.len() as int)
    &&& forall|l: int, i: int|
        refs.in_range(l) && 0 <= i < f.len() ==> #[trigger] count_ref(refs[l]@, i) == count_lit(
            f[i],
            l,
        )
}

/// The part of the state that every step keeps: the vectors agree on the
/// variables, the references are exact, and the assignment and the clause
/// counters are those the trail gives.
pub open spec fn consistent(
    cs: Seq<Clause>,
    refs: NVec<Vec<usize>>,
    a: NVec<Assignment>,
    t: Seq<isize>,
) -> bool {
    let n = a.half() as int;
    &&& a.wf()
    &&& refs.wf()
    &&& refs.half() == a.half()
    &&& refs_exact(refs, formula_of(cs))
    &&& lits_in_range(formula_of(cs), n)
    &&& forall|i: int| 0 <= i < cs.len() ==> (#[trigger] cs[i]).fits()
    &&& forall|i: int| 0 <= i < cs.len() ==> (#[trigger] cs[i]).counts_match(t)
    &&& trail_ok(t, n)
    &&& matches_trail(a, t)
}

/// Every variable and its negation are both unassigned, or one is true and
/// the other false.
pub open spec fn polarity_ok(a: NVec<Assignment>) -> bool {
    forall|v: int|
        1 <= v <= a.half() ==> {
            ||| (#[trigger] a[v] == Assignment::Unassigned && a[-v] == Assignment::Unassigned)
            ||| (a[v] == Assignment::True && a[-v] == Assignment::False)
            ||| (a[v] == Assignment::False && a[-v] == Assignment::True)
        }
}

/// The clause `c` has a literal the assignment makes true.
pub open spec fn has_true_literal(a: NVec<Assignment>, c: Seq<isize>) -> bool {
    exists|j: int| 0 <= j < c.len() && #[trigger] a[c[j] as int] == Assignment::True
}

/// Every clause of `f` has a literal the assignment makes true.
pub open spec fn true_in_every_clause(a: NVec<Assignment>, f: Seq<Seq<isize>>) -> bool {
    forall|i: int| 0 <= i < f.len() ==> #[trigger] has_true_literal(a, f[i])
}

/// An assignment that the trail gives has dual polarities.
pub proof fn lemma_polarity(cs: Seq<Clause>, refs: NVec<Vec<usize>>, a: NVec<Assignment>, t: Seq<isize>)
    requires
        consistent(cs, refs, a, t),
    ensures
        polarity_ok(a),
{
    let n = a.half() as int;
    assert forall|v: int| 1 <= v <= a.half() implies {
        ||| (#[trigger] a[v] == Assignment::Unassigned && a[-v] == Assignment::Unassigned)
        ||| (a[v] == Assignment::True && a[-v] == Assignment::False)
        ||| (a[v] == Assignment::False && a[-v] == Assignment::True)
    } by {
        assert(a.in_range(v) && a.in_range(-v));
        assert(a[v] == trail_value(t, v));
        assert(a[-v] == trail_value(t, -v));
        if on(t, v) {
            lemma_trail_consistent(t, n, v);
        }
        if on(t, -v) {
            lemma_trail_consistent(t, n, -v);
        }
    }
}

/// A free literal can be assigned in a consistent state.
pub proof fn lemma_assign_ready(
    cs: Seq<Clause>,
    refs: NVec<Vec<usize>>,
    a: NVec<Assignment>,
    t: Seq<isize>,
    l: isize,
)
    requires
        consistent(cs, refs, a, t),
        a.in_range(l as int),
        free(t, l as int),
    ensures
        a[l as int] == Assignment::Unassigned,
        refs_in_bounds(refs, cs.len() as int),
        assign_fits(cs, refs, l as int),
{
    let f = formula_of(cs);
    let t2 = t.push(l);
    assert forall|i: int| 0 <= i < cs.len() implies {
        &&& #[trigger] cs[i].num_true + count_ref(refs[l as int]@, i) <= usize::MAX
        &&& cs[i].num_false + count_ref(refs[-l]@, i) <= usize::MAX
        &&& isize::MIN <= cs[i].sum + l * count_ref(refs[-l]@, i) <= isize::MAX
    } by {
        assert(f[i] == cs[i].literals@);
        assert(count_ref(refs[l as int]@, i) == count_lit(f[i], l as int));
        assert(count_ref(refs[-l]@, i) == count_lit(f[i], -l));
        lemma_counts_push(f[i], t, l);
        lemma_counts_bounded(f[i], t2);
    }
}

/// Assigning a free literal keeps the state consistent with the longer trail.
pub proof fn lemma_assign_consistent(
    cs: Seq<Clause>,
    refs: NVec<Vec<usize>>,
    a: NVec<Assignment>,
    b: NVec<Assignment>,
    t: Seq<isize>,
    l: isize,
)
    requires
        consistent(cs, refs, a, t),
        a.in_range(l as int),
        free(t, l as int),
        assigned(a, b, l as int),
    ensures
        consistent(after_assign(cs, refs, l as int), refs, b, t.push(l)),
        formula_of(after_assign(cs, refs, l as int)) == formula_of(cs),
{
    let f = formula_of(cs);
    let cs2 = after_assign(cs, refs, l as int);
    let t2 = t.push(l);
    let n = a.half() as int;
    lemma_assign_ready(cs, refs, a, t, l);
    assert forall|i: int| 0 <= i < cs.len() implies (#[trigger] cs2[i]).counts_match(t2) by {
        assert(f[i] == cs[i].literals@);
        assert(count_ref(refs[l as int]@, i) == count_lit(f[i], l as int));
        assert(count_ref(refs[-l]@, i) == count_lit(f[i], -l));
        lemma_counts_push(f[i], t, l);
    }
    assert(formula_of(cs2) =~= f);
    lemma_trail_push(t, n, l);
    assert forall|x: int| b.in_range(x) implies #[trigger] b[x] == trail_value(t2, x) by {
        lemma_on_push(t, l, x);
        lemma_on_push(t, l, -x);
        assert(a.in_range(x));
        assert(a[x] == trail_value(t, x));
        if x == l as int {
        } else if x == -l {
        } else {
            assert(b[x] == a[x]);
        }
    }
}

/// The literal last pushed on the trail of a consistent state can be
/// unassigned.
pub proof fn lemma_unassign_ready(
    cs: Seq<Clause>,
    refs: NVec<Vec<usize>>,
    a: NVec<Assignment>,
    t: Seq<isize>,
    l: isize,
)
    requires
        consistent(cs, refs, a, t.push(l)),
    ensures
        a.in_range(l as int),
        a[l as int] == Assignment::True,
        a[-l] == Assignment::False,
        free(t, l as int),
        refs_in_bounds(refs, cs.len() as int),
        unassign_fits(cs, refs, l as int),
{
    let f = formula_of(cs);
    let t2 = t.push(l);
    let n = a.half() as int;
    lemma_trail_last(t, n, l);
    assert(t2[t.len() as int] == l);
    assert(on(t2, l as int));
    lemma_trail_consistent(t2, n, l as int);
    assert(a[l as int] == trail_value(t2, l as int));
    assert(a.in_range(-l));
    assert(a[-l] == trail_value(t2, -l));
    assert forall|i: int| 0 <= i < cs.len() implies {
        &&& #[trigger] cs[i].num_true >= count_ref(refs[l as int]@, i)
        &&& cs[i].num_false >= count_ref(refs[-l]@, i)
        &&& isize::MIN <= cs[i].sum - l * count_ref(refs[-l]@, i) <= isize::MAX
    } by {
        assert(f[i] == cs[i].literals@);
        assert(count_ref(refs[l as int]@, i) == count_lit(f[i], l as int));
        assert(count_ref(refs[-l]@, i) == count_lit(f[i], -l));
        lemma_counts_push(f[i], t, l);
        lemma_counts_bounded(f[i], t);
    }
}

/// Unassigning the literal last pushed on the trail keeps the state
/// consistent with the trail without it.
pub proof fn lemma_unassign_consistent(
    cs: Seq<Clause>,
    refs: NVec<Vec<usize>>,
    a: NVec<Assignment>,
    b: NVec<Assignment>,
    t: Seq<isize>,
    l: isize,
)
    requires
        consistent(cs, refs, a, t.push(l)),
        unassigned(a, b, l as int),
    ensures
        consistent(after_unassign(cs, refs, l as int), refs, b, t),
        formula_of(after_unassign(cs, refs, l as int)) == formula_of(cs),
{
    let f = formula_of(cs);
    let cs2 = after_unassign(cs, refs, l as int);
    let t2 = t.push(l);
    let n = a.half() as int;
    lemma_unassign_ready(cs, refs, a, t, l);
    lemma_trail_last(t, n, l);
    assert forall|i: int| 0 <= i < cs.len() implies (#[trigger] cs2[i]).counts_match(t) by {
        assert(f[i] == cs[i].literals@);
        assert(count_ref(refs[l as int]@, i) == count_lit(f[i], l as int));
        assert(count_ref(refs[-l]@, i) == count_lit(f[i], -l));
        lemma_counts_push(f[i], t, l);
    }
    assert(formula_of(cs2) =~= f);
    assert forall|x: int| b.in_range(x) implies #[trigger] b[x] == trail_value(t, x) by {
        lemma_on_push(t, l, x);
        lemma_on_push(t, l, -x);
        assert(a.in_range(x));
        assert(a[x] == trail_value(t2, x));
        if x == l as int {
        } else if x == -l {
        } else {
            assert(b[x] == a[x]);
        }
    }
}

/// Under every model of `f`, whenever the decisions taken at or before
/// trail position `q` hold, so does the literal at `q`.
pub open spec fn implied(f: Seq<Seq<isize>>, t: Seq<isize>, ctl: Seq<usize>) -> bool {
    forall|m: spec_fn(int) -> bool, q: int|
        is_model(m, f) && 0 <= q < t.len() && decisions_hold(m, t, ctl, q) ==> #[trigger] holds(
            m,
            t[q] as int,
        )
}

/// Every decision taken at or before trail position `q` holds under `m`.
pub open spec fn decisions_hold(m: spec_fn(int) -> bool, t: Seq<isize>, ctl: Seq<usize>, q: int) -> bool {
    forall|i: int| 0 <= i < ctl.len() && ctl[i] <= q ==> #[trigger] holds(m, t[ctl[i] as int] as int)
}

/// The control stack is strictly increasing and points into the trail.
pub open spec fn control_ok(ctl: Seq<usize>, len: int) -> bool {
    &&& forall|i: int, j: int| 0 <= i < j < ctl.len() ==> ctl[i] < ctl[j]
    &&& forall|i: int| 0 <= i < ctl.len() ==> #[trigger] ctl[i] < len
}

/// The trail below the first decision.
pub open spec fn root(t: Seq<isize>, ctl: Seq<usize>) -> Seq<isize> {
    if ctl.len() == 0 {
        t
    } else {
        t.take(ctl[0] as int)
    }
}

/// The literal of every unit clause stands below the first decision.
pub open spec fn units_rooted(f: Seq<Seq<isize>>, t: Seq<isize>, ctl: Seq<usize>) -> bool {
    forall|i: int| 0 <= i < f.len() && #[trigger] f[i].len() == 1 ==> on(root(t, ctl), f[i][0] as int)
}

/// Every pending clause has a false literal whose complement stands on the
/// trail at or after position `p`, so propagation from `p` reaches it.
pub open spec fn queued(f: Seq<Seq<isize>>, t: Seq<isize>, p: int) -> bool {
    forall|i: int|
        0 <= i < f.len() && #[trigger] pending(f[i], t) ==> exists|j: int, q: int|
            0 <= j < f[i].len() && p <= q < t.len() && t[q] as int == -f[i][j]
}

/// Propagation had reached a fixpoint when each open decision was taken.
pub open spec fn fixpoints_kept(f: Seq<Seq<isize>>, t: Seq<isize>, ctl: Seq<usize>) -> bool {
    forall|i: int| 0 <= i < ctl.len() ==> fixpoint(f, t.take(#[trigger] ctl[i] as int))
}

/// No clause of `f` is empty.
pub open spec fn no_empty(f: Seq<Seq<isize>>) -> bool {
    forall|i: int| 0 <= i < f.len() ==> #[trigger] f[i].len() >= 1
}

/// Two unit clauses of `f` hold complementary literals.
pub open spec fn opposite_units(f: Seq<Seq<isize>>) -> bool {
    exists|i: int, j: int|
        0 <= i < f.len() && 0 <= j < f.len() && #[trigger] f[i].len() == 1 && #[trigger] f[j].len() == 1
            && f[i][0] == -f[j][0]
}

/// The invariant of the search, over the clauses `cs` and the state `st`.
pub open spec fn search_inv(cs: Seq<Clause>, st: State) -> bool {
    let f = formula_of(cs);
    let t = st.trail@;
    let ctl = st.control@;
    &&& consistent(cs, st.references, st.assignments, t)
    &&& no_empty(f)
    &&& ctl.len() == st.level
    &&& control_ok(ctl, t.len() as int)
    &&& st.propagated <= t.len()
    &&& implied(f, t, ctl)
    &&& fixpoints_kept(f, t, ctl)
    &&& units_rooted(f, t, ctl)
    &&& queued(f, t, st.propagated as int)
}

/// The clauses are ready for a search over `n` variables: literals in range,
/// sums that fit and counters of a clause with nothing assigned.
pub open spec fn clauses_ready(cs: Seq<Clause>, n: int) -> bool {
    &&& lits_in_range(formula_of(cs), n)
    &&& forall|i: int| 0 <= i < cs.len() ==> (#[trigger] cs[i]).fits()
    &&& forall|i: int| 0 <= i < cs.len() ==> (#[trigger] cs[i]).counts_match(Seq::empty())
}

/// The state has nothing assigned and no references yet.
pub open spec fn state_fresh(st: State) -> bool {
    &&& st.assignments.wf()
    &&& st.references.wf()
    &&& st.references.half() == st.assignments.half()
    &&& forall|l: int| st.assignments.in_range(l) ==> st.assignments[l] == Assignment::Unassigned
    &&& forall|l: int| st.references.in_range(l) ==> st.references[l]@.len() == 0
    &&& st.level == 0
    &&& st.propagated == 0
    &&& st.control@.len() == 0
    &&& st.trail@.len() == 0
}

/// The status of every clause is settled: satisfied, or with at least two
/// literals not false.
pub open spec fn settled(cs: Seq<Clause>) -> bool {
    forall|i: int|
        0 <= i < cs.len() ==> #[trigger] status_of(cs[i]) == Status::Satisfied || status_of(cs[i])
            == Status::Unresolved
}

/// Some clause has every literal false.
pub open spec fn conflict(f: Seq<Seq<isize>>, t: Seq<isize>) -> bool {
    exists|i: int| 0 <= i < f.len() && n_false(#[trigger] f[i], t) == f[i].len()
}

/// At a propagation fixpoint no clause is falsified or forcing.
pub proof fn lemma_fixpoint_settled(cs: Seq<Clause>, st: State)
    requires
        search_inv(cs, st),
        fixpoint(formula_of(cs), st.trail@),
    ensures
        settled(cs),
{
    let f = formula_of(cs);
    let t = st.trail@;
    assert forall|i: int| 0 <= i < cs.len() implies #[trigger] status_of(cs[i]) == Status::Satisfied
        || status_of(cs[i]) == Status::Unresolved by {
        assert(f[i] == cs[i].literals@);
        assert(cs[i].counts_match(t));
        assert(!pending(f[i], t));
        assert(f[i].len() >= 1);
        crate::model::lemma_counts_bounded(f[i], t);
        if f[i].len() == 1 && n_true(f[i], t) == 0 {
            assert(on(root(t, st.control@), f[i][0] as int));
            if st.control@.len() > 0 {
                crate::model::lemma_on_take(t, st.control@[0] as int, f[i][0] as int);
            }
            assert(f[i].drop_last().len() == 0);
            assert(f[i].last() == f[i][0]);
        }
    }
}

/// A literal forced by a clause whose other literals are all false on the
/// trail holds under every model in which the trail holds.
pub proof fn lemma_implied_forced(f: Seq<Seq<isize>>, t: Seq<isize>, ctl: Seq<usize>, ci: int, j: int)
    requires
        implied(f, t, ctl),
        control_ok(ctl, t.len() as int),
        0 <= ci < f.len(),
        0 <= j < f[ci].len(),
        forall|k: int| 0 <= k < f[ci].len() && k != j ==> on(t, -f[ci][k]),
        forall|k: int| 0 <= k < f[ci].len() ==> f[ci][k] != 0,
    ensures
        implied(f, t.push(f[ci][j]), ctl),
{
    let x = f[ci][j];
    let t2 = t.push(x);
    assert forall|m: spec_fn(int) -> bool, q: int|
        is_model(m, f) && 0 <= q < t2.len() && decisions_hold(m, t2, ctl, q) implies #[trigger] holds(
            m,
            t2[q] as int,
        ) by {
        if q < t.len() {
            assert(t2[q] == t[q]);
            assert forall|i: int| 0 <= i < ctl.len() && ctl[i] <= q implies #[trigger] holds(m, t[ctl[i] as int] as int) by {
                assert(t2[ctl[i] as int] == t[ctl[i] as int]);
                assert(holds(m, t2[ctl[i] as int] as int));
            }
            assert(decisions_hold(m, t, ctl, q));
        } else {
            assert forall|q2: int| 0 <= q2 < t.len() implies #[trigger] holds(m, t[q2] as int) by {
                assert forall|i: int| 0 <= i < ctl.len() && ctl[i] <= q2 implies #[trigger] holds(m, t[ctl[i] as int] as int) by {
                    assert(t2[ctl[i] as int] == t[ctl[i] as int]);
                    assert(holds(m, t2[ctl[i] as int] as int));
                }
                assert(decisions_hold(m, t, ctl, q2));
            }
            assert(clause_holds(m, f[ci]));
            let k = choose|k: int| 0 <= k < f[ci].len() && #[trigger] holds(m, f[ci][k] as int);
            if k != j {
                assert(on(t, -f[ci][k]));
                let q2 = choose|q2: int| 0 <= q2 < t.len() && t[q2] as int == -f[ci][k];
                assert(holds(m, t[q2] as int));
                lemma_holds_neg(m, f[ci][k] as int);
            }
        }
    }
}

/// Pushing a literal on the trail keeps the parts of the invariant that
/// look at the trail below the decisions.
pub proof fn lemma_push_keeps_history(f: Seq<Seq<isize>>, t: Seq<isize>, ctl: Seq<usize>, x: isize)
    requires
        control_ok(ctl, t.len() as int),
        fixpoints_kept(f, t, ctl),
        units_rooted(f, t, ctl),
    ensures
        control_ok(ctl, t.len() as int + 1),
        fixpoints_kept(f, t.push(x), ctl),
        units_rooted(f, t.push(x), ctl),
{
    let t2 = t.push(x);
    assert forall|i: int| 0 <= i < ctl.len() implies fixpoint(f, t2.take(#[trigger] ctl[i] as int)) by {
        assert(t2.take(ctl[i] as int) =~= t.take(ctl[i] as int));
    }
    if ctl.len() > 0 {
        assert(t2.take(ctl[0] as int) =~= t.take(ctl[0] as int));
    } else {
        assert forall|i: int| 0 <= i < f.len() && #[trigger] f[i].len() == 1 implies on(root(t2, ctl), f[i][0] as int) by {
            lemma_on_push(t, x, f[i][0] as int);
        }
    }
}

/// A control stack is no longer than the trail it points into.
pub proof fn lemma_control_len(ctl: Seq<usize>, len: int)
    requires
        control_ok(ctl, len),
        len >= 0,
    ensures
        ctl.len() <= len,
    decreases ctl.len(),
{
    if ctl.len() > 0 {
        let d = ctl.drop_last();
        assert forall|i: int| 0 <= i < d.len() implies #[trigger] d[i] < ctl.last() by {
            assert(ctl[i] < ctl[ctl.len() - 1]);
        }
        assert forall|i: int, j: int| 0 <= i < j < d.len() implies d[i] < d[j] by {
            assert(ctl[i] < ctl[j]);
        }
        assert(ctl[ctl.len() - 1] < len);
        lemma_control_len(d, ctl.last() as int);
    }
}

/// With a conflict on the trail, every model that satisfies the decisions
/// below the last one falsifies the last decision.
pub proof fn lemma_conflict_refutes(f: Seq<Seq<isize>>, t: Seq<isize>, ctl: Seq<usize>, m: spec_fn(int) -> bool)
    requires
        implied(f, t, ctl),
        control_ok(ctl, t.len() as int),
        conflict(f, t),
        forall|i: int, j: int| 0 <= i < f.len() && 0 <= j < f[i].len() ==> #[trigger] f[i][j] != 0,
        forall|i: int| 0 <= i < ctl.len() ==> #[trigger] holds(m, t[ctl[i] as int] as int),
    ensures
        !is_model(m, f),
{
    if is_model(m, f) {
        let ci = choose|i: int| 0 <= i < f.len() && n_false(#[trigger] f[i], t) == f[i].len();
        lemma_all_false(f[ci], t);
        assert(clause_holds(m, f[ci]));
        let k = choose|k: int| 0 <= k < f[ci].len() && #[trigger] holds(m, f[ci][k] as int);
        assert(on(t, -f[ci][k]));
        let q = choose|q: int| 0 <= q < t.len() && t[q] as int == -f[ci][k];
        assert(decisions_hold(m, t, ctl, q));
        assert(holds(m, t[q] as int));
        lemma_holds_neg(m, f[ci][k] as int);
    }
}

} // verus!
