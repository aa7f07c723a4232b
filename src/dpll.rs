//! The search: assigning and unassigning literals, propagation, decisions,
//! backtracking and the main loop.
use vstd::prelude::*;
use crate::data::{Assignment, Clause, Cnf, State, Status, formula_of};
use crate::model::{
    clause_holds, count_lit, count_ref, fixpoint, holds, is_lit, is_model, lits_in_range,
    n_false, on, pending, satisfiable, lemma_count_lit_pos, lemma_count_ref_witness,
    lemma_count_witness, lemma_counts_bounded, lemma_counts_push, lemma_false_witness,
    lemma_forcing, lemma_holds_neg, lemma_on_push, lemma_pending_push, lemma_trail_consistent,
    lemma_trail_len,
};
use crate::search::{
    clauses_ready, conflict, consistent, control_ok, decisions_hold, fixpoints_kept, implied,
    no_empty, opposite_units, refs_exact, root, search_inv, settled, state_fresh, trail_value,
    units_rooted, lemma_assign_consistent, lemma_assign_ready, lemma_conflict_refutes,
    lemma_control_len, lemma_fixpoint_settled, lemma_implied_forced, lemma_push_keeps_history,
    lemma_unassign_consistent, lemma_unassign_ready, polarity_ok, true_in_every_clause, lemma_polarity,
};
use crate::nvec::NVec;
use crate::progress::{decided_at, pow3, progress, tag, lemma_weight_bounded, lemma_weight_lex};

verus! {

/// The status of a clause as its counters give it.
pub open spec fn status_of(c: Clause) -> Status {
    if c.num_true > 0 {
        Status::Satisfied
    } else if c.size == c.num_false {
        Status::Falsified
    } else if c.size > 0 && c.size - 1 == c.num_false {
        Status::Forcing(c.sum)
    } else {
        Status::Unresolved
    }
}

/// Every reference names a clause of `cs`.
pub open spec fn refs_in_bounds(refs: NVec<Vec<usize>>, len: int) -> bool {
    forall|l: int, k: int|
        refs.in_range(l) && 0 <= k < refs[l]@.len() ==> (#[trigger] refs[l]@[k]) < len
}

/// The clauses after the literal `l` became true: every clause listed under
/// `l` gains a true literal, every clause listed under `-l` a false one, and
/// the sum of that clause moves by `l` per false literal gained.
pub open spec fn after_assign(cs: Seq<Clause>, refs: NVec<Vec<usize>>, l: int) -> Seq<Clause> {
    Seq::new(
        cs.len(),
        |i: int|
            shift(
                cs[i],
                count_ref(refs[l]@, i) as int,
                count_ref(refs[-l]@, i) as int,
                l * count_ref(refs[-l]@, i),
            ),
    )
}

/// The clauses after the literal `l` stopped being true: the changes of
/// `after_assign` taken back.
pub open spec fn after_unassign(cs: Seq<Clause>, refs: NVec<Vec<usize>>, l: int) -> Seq<Clause> {
    Seq::new(
        cs.len(),
        |i: int|
            shift(
                cs[i],
                -count_ref(refs[l]@, i),
                -count_ref(refs[-l]@, i),
                -(l * count_ref(refs[-l]@, i)),
            ),
    )
}

/// The counters of `cs` can take the increments of assigning `l`.
pub open spec fn assign_fits(cs: Seq<Clause>, refs: NVec<Vec<usize>>, l: int) -> bool {
    forall|i: int|
        0 <= i < cs.len() ==> {
            &&& #[trigger] cs[i].num_true + count_ref(refs[l]@, i) <= usize::MAX
            &&& cs[i].num_false + count_ref(refs[-l]@, i) <= usize::MAX
            &&& isize::MIN <= cs[i].sum + l * count_ref(refs[-l]@, i) <= isize::MAX
        }
}

/// The counters of `cs` can take the decrements of unassigning `l`.
pub open spec fn unassign_fits(cs: Seq<Clause>, refs: NVec<Vec<usize>>, l: int) -> bool {
    forall|i: int|
        0 <= i < cs.len() ==> {
            &&& #[trigger] cs[i].num_true >= count_ref(refs[l]@, i)
            &&& cs[i].num_false >= count_ref(refs[-l]@, i)
            &&& isize::MIN <= cs[i].sum - l * count_ref(refs[-l]@, i) <= isize::MAX
        }
}

/// The assignment after `l` became true and `-l` false.
pub open spec fn assigned(a: NVec<Assignment>, b: NVec<Assignment>, l: int) -> bool {
    &&& b.wf()
    &&& b.half() == a.half()
    &&& b@ == a@.update(a.half() - l, Assignment::True).update(a.half() + l, Assignment::False)
}

/// The assignment after `l` and `-l` became unassigned.
pub open spec fn unassigned(a: NVec<Assignment>, b: NVec<Assignment>, l: int) -> bool {
    &&& b.wf()
    &&& b.half() == a.half()
    &&& b@ == a@.update(a.half() - l, Assignment::Unassigned).update(
        a.half() + l,
        Assignment::Unassigned,
    )
}

proof fn lemma_count_ref_step(s: Seq<usize>, k: int, i: int)
    requires
        0 <= k < s.len(),
    ensures
        count_ref(s.take(k + 1), i) == count_ref(s.take(k), i) + if s[k] as int == i {
            1nat
        } else {
            0nat
        },
{
    assert(s.take(k + 1).drop_last() =~= s.take(k));
}

proof fn lemma_count_ref_prefix(s: Seq<usize>, k: int, i: int)
    requires
        0 <= k <= s.len(),
    ensures
        count_ref(s.take(k), i) <= count_ref(s, i),
    decreases s.len(),
{
    if k < s.len() {
        assert(s.drop_last().take(k) =~= s.take(k));
        lemma_count_ref_prefix(s.drop_last(), k, i);
    } else {
        assert(s.take(k) =~= s);
    }
}

/// Returns the status of a clause as its counters give it.
pub fn status(clause: &Clause) -> (r: Status)
    ensures
        r == status_of(*clause),
{
    if clause.num_true > 0 {
        Status::Satisfied
    } else if clause.size == clause.num_false {
        Status::Falsified
    } else if clause.size > 0 && clause.size - 1 == clause.num_false {
        Status::Forcing(clause.sum)
    } else {
        Status::Unresolved
    }
}

/// The clause `c` with its counters moved by the given amounts.
pub open spec fn shift(c: Clause, dt: int, df: int, ds: int) -> Clause {
    Clause {
        num_true: (c.num_true + dt) as usize,
        num_false: (c.num_false + df) as usize,
        sum: (c.sum + ds) as isize,
        ..c
    }
}

/// Moves the true counter of every clause listed in `refs` by one per listing,
/// up or down.
fn shift_true(clauses: &mut Vec<Clause>, refs: &Vec<usize>, up: bool)
    requires
        forall|k: int| 0 <= k < refs@.len() ==> (#[trigger] refs@[k]) < old(clauses)@.len(),
        forall|i: int|
            0 <= i < old(clauses)@.len() ==> {
                let d = count_ref(refs@, i) as int;
                0 <= #[trigger] old(clauses)@[i].num_true + (if up { d } else { -d }) <= usize::MAX
            },
    ensures
        final(clauses)@.len() == old(clauses)@.len(),
        forall|i: int|
            0 <= i < old(clauses)@.len() ==> {
                let d = count_ref(refs@, i) as int;
                #[trigger] final(clauses)@[i] == shift(old(clauses)@[i], if up { d } else { -d }, 0, 0)
            },
{
    let ghost cs0 = clauses@;
    let mut k: usize = 0;
    while k < refs.len()
        invariant
            k <= refs@.len(),
            forall|j: int| 0 <= j < refs@.len() ==> (#[trigger] refs@[j]) < cs0.len(),
            forall|i: int|
                0 <= i < cs0.len() ==> {
                    let d = count_ref(refs@, i) as int;
                    0 <= #[trigger] cs0[i].num_true + (if up { d } else { -d }) <= usize::MAX
                },
            clauses@.len() == cs0.len(),
            forall|i: int|
                0 <= i < cs0.len() ==> {
                    let d = count_ref(refs@.take(k as int), i) as int;
                    #[trigger] clauses@[i] == shift(cs0[i], if up { d } else { -d }, 0, 0)
                },
        decreases refs@.len() - k,
    {
        let c = refs[k];
        proof {
            assert forall|i: int| 0 <= i < cs0.len() implies count_ref(refs@.take(k + 1), i)
                == count_ref(refs@.take(k as int), i) + (if refs@[k as int] as int == i {
                1nat
            } else {
                0nat
            }) && count_ref(refs@.take(k + 1), i) <= count_ref(refs@, i) by {
                lemma_count_ref_step(refs@, k as int, i);
                lemma_count_ref_prefix(refs@, k + 1, i);
            }
        }
        if up {
            clauses[c].num_true = clauses[c].num_true + 1;
        } else {
            clauses[c].num_true = clauses[c].num_true - 1;
        }
        k += 1;
    }
    proof {
        assert(refs@.take(k as int) =~= refs@);
    }
}

proof fn lemma_between(s0: int, l: int, d: int, d1: int)
    requires
        0 <= d <= d1,
        isize::MIN <= s0 <= isize::MAX,
        isize::MIN <= s0 + l * d1 <= isize::MAX,
    ensures
        isize::MIN <= s0 + l * d <= isize::MAX,
{
    if l >= 0 {
        assert(0 <= l * d <= l * d1) by (nonlinear_arith)
            requires
                l >= 0,
                0 <= d <= d1,
        ;
    } else {
        assert(l * d1 <= l * d <= 0) by (nonlinear_arith)
            requires
                l < 0,
                0 <= d <= d1,
        ;
    }
}

/// Moves the false counter of every clause listed in `refs` by one per
/// listing, up or down, and its sum by `l` the other way.
fn shift_false(clauses: &mut Vec<Clause>, refs: &Vec<usize>, l: isize, up: bool)
    requires
        forall|k: int| 0 <= k < refs@.len() ==> (#[trigger] refs@[k]) < old(clauses)@.len(),
        forall|i: int|
            0 <= i < old(clauses)@.len() ==> {
                let d = count_ref(refs@, i) as int;
                &&& 0 <= #[trigger] old(clauses)@[i].num_false + (if up { d } else { -d }) <= usize::MAX
                &&& isize::MIN <= old(clauses)@[i].sum + l * (if up { d } else { -d }) <= isize::MAX
            },
    ensures
        final(clauses)@.len() == old(clauses)@.len(),
        forall|i: int|
            0 <= i < old(clauses)@.len() ==> {
                let d = count_ref(refs@, i) as int;
                #[trigger] final(clauses)@[i] == shift(
                    old(clauses)@[i],
                    0,
                    if up { d } else { -d },
                    l * (if up { d } else { -d }),
                )
            },
{
    let ghost cs0 = clauses@;
    let mut k: usize = 0;
    proof {
        assert(l * 0 == 0) by (nonlinear_arith);
        assert forall|i: int| 0 <= i < cs0.len() implies #[trigger] clauses@[i] == shift(cs0[i], 0, 0, l * 0) by {
            assert(refs@.take(0) =~= Seq::<usize>::empty());
        }
    }
    while k < refs.len()
        invariant
            k <= refs@.len(),
            forall|j: int| 0 <= j < refs@.len() ==> (#[trigger] refs@[j]) < cs0.len(),
            forall|i: int|
                0 <= i < cs0.len() ==> {
                    let d = count_ref(refs@, i) as int;
                    &&& 0 <= #[trigger] cs0[i].num_false + (if up { d } else { -d }) <= usize::MAX
                    &&& isize::MIN <= cs0[i].sum + l * (if up { d } else { -d }) <= isize::MAX
                },
            clauses@.len() == cs0.len(),
            forall|i: int|
                0 <= i < cs0.len() ==> {
                    let d = count_ref(refs@.take(k as int), i) as int;
                    #[trigger] clauses@[i] == shift(
                        cs0[i],
                        0,
                        if up { d } else { -d },
                        l * (if up { d } else { -d }),
                    )
                },
        decreases refs@.len() - k,
    {
        let c = refs[k];
        proof {
            assert forall|i: int| 0 <= i < cs0.len() implies count_ref(refs@.take(k + 1), i)
                == count_ref(refs@.take(k as int), i) + (if refs@[k as int] as int == i {
                1nat
            } else {
                0nat
            }) && count_ref(refs@.take(k + 1), i) <= count_ref(refs@, i) by {
                lemma_count_ref_step(refs@, k as int, i);
                lemma_count_ref_prefix(refs@, k + 1, i);
            }
            let i = c as int;
            let d0 = count_ref(refs@.take(k as int), i) as int;
            let d1 = count_ref(refs@, i) as int;
            let s0 = cs0[i].sum as int;
            assert(0 <= cs0[i].num_false + (if up { d1 } else { -d1 }) <= usize::MAX);
            assert(clauses@[i] == shift(cs0[i], 0, if up { d0 } else { -d0 }, l * (if up { d0 } else { -d0 })));
            if up {
                lemma_between(s0, l as int, d0, d1);
                lemma_between(s0, l as int, d0 + 1, d1);
            } else {
                assert(l * (-d1) == (-l) * d1) by (nonlinear_arith);
                assert(l * (-d0) == (-l) * d0) by (nonlinear_arith);
                assert(l * (-(d0 + 1)) == (-l) * (d0 + 1)) by (nonlinear_arith);
                lemma_between(s0, -l, d0, d1);
                lemma_between(s0, -l, d0 + 1, d1);
            }
            assert(l * (if up { d0 + 1 } else { -(d0 + 1) }) == l * (if up { d0 } else { -d0 }) + (if up { l as int } else { -l })) by (nonlinear_arith);
        }
        if up {
            clauses[c].num_false = clauses[c].num_false + 1;
            clauses[c].sum = clauses[c].sum + l;
        } else {
            clauses[c].num_false = clauses[c].num_false - 1;
            clauses[c].sum = clauses[c].sum - l;
        }
        k += 1;
    }
    proof {
        assert(refs@.take(k as int) =~= refs@);
    }
}

/// Makes `literal` true and its complement false, updates the counters of the
/// clauses either occurs in, and pushes `literal` on the trail.
pub fn assign(
    literal: isize,
    clauses: &mut Vec<Clause>,
    references: &NVec<Vec<usize>>,
    assignments: &mut NVec<Assignment>,
    trail: &mut Vec<isize>,
)
    requires
        references.wf(),
        old(assignments).wf(),
        references.half() == old(assignments).half(),
        references.in_range(literal as int),
        old(assignments)[literal as int] == Assignment::Unassigned,
        refs_in_bounds(*references, old(clauses)@.len() as int),
        assign_fits(old(clauses)@, *references, literal as int),
    ensures
        final(clauses)@ == after_assign(old(clauses)@, *references, literal as int),
        assigned(*old(assignments), *final(assignments), literal as int),
        final(trail)@ == old(trail)@.push(literal),
{
    let ghost cs0 = clauses@;
    let ghost l = literal as int;
    *assignments.index_mut(literal) = Assignment::True;
    *assignments.index_mut(-literal) = Assignment::False;
    let pos = references.index(literal);
    let neg = references.index(-literal);
    proof {
        assert forall|k: int| 0 <= k < pos@.len() implies (#[trigger] pos@[k]) < cs0.len() by {
            assert(references[l]@[k] < cs0.len());
        }
        assert forall|k: int| 0 <= k < neg@.len() implies (#[trigger] neg@[k]) < cs0.len() by {
            assert(references[-l]@[k] < cs0.len());
        }
        assert forall|i: int| 0 <= i < cs0.len() implies 0 <= #[trigger] cs0[i].num_true + count_ref(pos@, i) <= usize::MAX by {
            assert(cs0[i].num_true + count_ref(references[l]@, i) <= usize::MAX);
        }
    }
    shift_true(clauses, pos, true);
    let ghost cs1 = clauses@;
    proof {
        assert forall|i: int| 0 <= i < cs1.len() implies {
                let d = count_ref(neg@, i) as int;
                &&& 0 <= #[trigger] cs1[i].num_false + d <= usize::MAX
                &&& isize::MIN <= cs1[i].sum + literal * d <= isize::MAX
            } by {
            assert(cs1[i] == shift(cs0[i], count_ref(pos@, i) as int, 0, 0));
            assert(cs0[i].num_false + count_ref(references[-l]@, i) <= usize::MAX);
        }
    }
    shift_false(clauses, neg, literal, true);
    trail.push(literal);
    assert(clauses@ =~= after_assign(cs0, *references, l));
}

/// Makes `literal` and its complement unassigned and takes back the counter
/// changes of assigning `literal`; the trail is left to the caller.
pub fn unassign(
    literal: isize,
    clauses: &mut Vec<Clause>,
    references: &NVec<Vec<usize>>,
    assignments: &mut NVec<Assignment>,
)
    requires
        references.wf(),
        old(assignments).wf(),
        references.half() == old(assignments).half(),
        references.in_range(literal as int),
        old(assignments)[literal as int] == Assignment::True,
        old(assignments)[-literal] == Assignment::False,
        refs_in_bounds(*references, old(clauses)@.len() as int),
        unassign_fits(old(clauses)@, *references, literal as int),
    ensures
        final(clauses)@ == after_unassign(old(clauses)@, *references, literal as int),
        unassigned(*old(assignments), *final(assignments), literal as int),
{
    let ghost cs0 = clauses@;
    let ghost l = literal as int;
    *assignments.index_mut(literal) = Assignment::Unassigned;
    *assignments.index_mut(-literal) = Assignment::Unassigned;
    let pos = references.index(literal);
    let neg = references.index(-literal);
    proof {
        assert forall|k: int| 0 <= k < pos@.len() implies (#[trigger] pos@[k]) < cs0.len() by {
            assert(references[l]@[k] < cs0.len());
        }
        assert forall|k: int| 0 <= k < neg@.len() implies (#[trigger] neg@[k]) < cs0.len() by {
            assert(references[-l]@[k] < cs0.len());
        }
        assert forall|i: int| 0 <= i < cs0.len() implies 0 <= #[trigger] cs0[i].num_true - count_ref(pos@, i) <= usize::MAX by {
            assert(cs0[i].num_true >= count_ref(references[l]@, i));
        }
    }
    shift_true(clauses, pos, false);
    let ghost cs1 = clauses@;
    proof {
        assert forall|i: int| 0 <= i < cs1.len() implies {
                let d = count_ref(neg@, i) as int;
                &&& 0 <= #[trigger] cs1[i].num_false - d <= usize::MAX
                &&& isize::MIN <= cs1[i].sum + literal * (-d) <= isize::MAX
            } by {
            let d = count_ref(neg@, i) as int;
            assert(cs1[i] == shift(cs0[i], -count_ref(pos@, i), 0, 0));
            assert(cs0[i].num_false >= count_ref(references[-l]@, i));
            assert(literal * (-d) == -(literal * d)) by (nonlinear_arith);
        }
    }
    shift_false(clauses, neg, literal, false);
    proof {
        assert forall|i: int| 0 <= i < cs0.len() implies #[trigger] clauses@[i] == after_unassign(cs0, *references, l)[i] by {
            let d = count_ref(neg@, i) as int;
            assert(literal * (-d) == -(literal * d)) by (nonlinear_arith);
        }
    }
    assert(clauses@ =~= after_unassign(cs0, *references, l));
}

/// Unassigning a literal right after assigning it gives back the clause
/// counters and the assignment it started from.
pub proof fn lemma_unassign_undoes_assign(
    cs: Seq<Clause>,
    refs: NVec<Vec<usize>>,
    a: NVec<Assignment>,
    b: NVec<Assignment>,
    c: NVec<Assignment>,
    l: int,
)
    requires
        a.wf(),
        a.in_range(l),
        a[l] == Assignment::Unassigned,
        polarity_ok(a),
        assign_fits(cs, refs, l),
        assigned(a, b, l),
        unassigned(b, c, l),
    ensures
        after_unassign(after_assign(cs, refs, l), refs, l) == cs,
        c@ == a@,
{
    let cs2 = after_unassign(after_assign(cs, refs, l), refs, l);
    assert forall|i: int| 0 <= i < cs.len() implies #[trigger] cs2[i] == cs[i] by {
        assert(cs[i].num_true + count_ref(refs[l]@, i) <= usize::MAX);
    }
    assert(cs2 =~= cs);
    let v = if l > 0 { l } else { -l };
    assert(a[v] == Assignment::Unassigned || a[-v] == Assignment::Unassigned);
    assert(a[-l] == Assignment::Unassigned);
    assert(c@ =~= a@);
}

/// The index `i` written `k` times.
pub open spec fn repeat_index(i: int, k: nat) -> Seq<usize> {
    Seq::new(k, |q: int| i as usize)
}

/// The reference list of the literal `l` over the clauses `f`: the index of
/// every clause in ascending order, once per occurrence of `l` in it.
pub open spec fn refs_list(f: Seq<Seq<isize>>, l: int) -> Seq<usize>
    decreases f.len(),
{
    if f.len() == 0 {
        Seq::empty()
    } else {
        refs_list(f.drop_last(), l) + repeat_index(f.len() - 1, count_lit(f.last(), l))
    }
}

/// Fills the references from the literals of the clauses.
fn connect_references(clauses: &Vec<Clause>, references: &mut NVec<Vec<usize>>)
    requires
        old(references).wf(),
        lits_in_range(formula_of(clauses@), old(references).half() as int),
        forall|l: int| old(references).in_range(l) ==> old(references)[l]@.len() == 0,
    ensures
        final(references).wf(),
        final(references).half() == old(references).half(),
        refs_exact(*final(references), formula_of(clauses@)),
        forall|l: int|
            final(references).in_range(l) ==> #[trigger] final(references)[l]@ == refs_list(
                formula_of(clauses@),
                l,
            ),
{
    let ghost f = formula_of(clauses@);
    let ghost n = references.half() as int;
    let mut i: usize = 0;
    proof {
        assert forall|l: int| references.in_range(l) implies #[trigger] references[l]@ == refs_list(f.take(0), l) by {
            assert(references[l]@ =~= Seq::<usize>::empty());
        }
    }
    while i < clauses.len()
        invariant
            references.wf(),
            references.half() == n,
            f == formula_of(clauses@),
            lits_in_range(f, n),
            i <= clauses@.len(),
            forall|l: int| references.in_range(l) ==> #[trigger] references[l]@ == refs_list(f.take(i as int), l),
            forall|l: int, k: int|
                references.in_range(l) && 0 <= k < references[l]@.len() ==> (#[trigger] references[l]@[k]) < i,
            forall|l: int, i2: int|
                references.in_range(l) && 0 <= i2 < f.len() ==> #[trigger] count_ref(references[l]@, i2) == if i2 < i {
                    count_lit(f[i2], l)
                } else {
                    0
                },
        decreases clauses@.len() - i,
    {
        let mut j: usize = 0;
        let ghost c = f[i as int];
        assert(c == clauses@[i as int].literals@);
        while j < clauses[i].literals.len()
            invariant
                references.wf(),
                references.half() == n,
                f == formula_of(clauses@),
                lits_in_range(f, n),
                i < clauses@.len(),
                c == f[i as int],
                c == clauses@[i as int].literals@,
                j <= c.len(),
                forall|l: int|
                    references.in_range(l) ==> #[trigger] references[l]@ == refs_list(f.take(i as int), l)
                        + repeat_index(i as int, count_lit(c.take(j as int), l)),
                forall|l: int, k: int|
                    references.in_range(l) && 0 <= k < references[l]@.len() ==> (#[trigger] references[l]@[k]) <= i,
                forall|l: int, i2: int|
                    references.in_range(l) && 0 <= i2 < f.len() ==> #[trigger] count_ref(references[l]@, i2) == if i2 < i {
                        count_lit(f[i2], l)
                    } else if i2 == i {
                        count_lit(c.take(j as int), l)
                    } else {
                        0
                    },
            decreases c.len() - j,
        {
            let lit = clauses[i].literals[j];
            assert(is_lit(f[i as int][j as int] as int, n));
            let ghost before = *references;
            references.index_mut(lit).push(i);
            proof {
                assert forall|l: int| references.in_range(l) && l != lit as int implies #[trigger] references[l] == before[l] by {
                    assert(references.half() - l != before.half() - lit);
                }
                assert(references[lit as int]@ == before[lit as int]@.push(i));
                assert forall|l: int, k: int|
                    references.in_range(l) && 0 <= k < references[l]@.len() implies (#[trigger] references[l]@[k]) <= i by {
                    if l != lit as int {
                        assert(references[l] == before[l]);
                    } else if k < before[l]@.len() {
                        assert(references[l]@[k] == before[l]@[k]);
                    }
                }
                assert(c.take(j + 1).drop_last() =~= c.take(j as int));
                assert forall|l: int|
                    references.in_range(l) implies #[trigger] references[l]@ == refs_list(f.take(i as int), l)
                        + repeat_index(i as int, count_lit(c.take(j + 1), l)) by {
                    assert(before.in_range(l));
                    assert(count_lit(c.take(j + 1), l) == count_lit(c.take(j as int), l) + if c.take(j + 1).last() as int == l { 1nat } else { 0nat });
                    if l != lit as int {
                        assert(references[l] == before[l]);
                    } else {
                        assert(refs_list(f.take(i as int), l) + repeat_index(i as int, count_lit(c.take(j + 1), l))
                            =~= (refs_list(f.take(i as int), l) + repeat_index(i as int, count_lit(c.take(j as int), l))).push(i));
                    }
                }
                assert forall|l: int, i2: int|
                    references.in_range(l) && 0 <= i2 < f.len() implies #[trigger] count_ref(references[l]@, i2) == if i2 < i {
                        count_lit(f[i2], l)
                    } else if i2 == i {
                        count_lit(c.take(j + 1), l)
                    } else {
                        0
                    } by {
                    assert(before.in_range(l));
                    let prev = count_ref(before[l]@, i2);
                    if l != lit as int {
                        assert(references[l] == before[l]);
                        if i2 == i {
                            assert(count_lit(c.take(j + 1), l) == count_lit(c.take(j as int), l) + if c.take(j + 1).last() as int == l { 1nat } else { 0nat });
                        }
                    } else {
                        assert(references[l]@.drop_last() =~= before[l]@);
                        assert(count_ref(references[l]@, i2) == prev + if i as int == i2 { 1nat } else { 0nat });
                        if i2 == i {
                            assert(count_lit(c.take(j + 1), l) == count_lit(c.take(j as int), l) + if c.take(j + 1).last() as int == l { 1nat } else { 0nat });
                        }
                    }
                }
            }
            j += 1;
        }
        proof {
            assert(c.take(j as int) =~= c);
            let g = f.take(i + 1);
            assert(g.drop_last() =~= f.take(i as int));
            assert(g.last() == c);
            assert forall|l: int| references.in_range(l) implies #[trigger] references[l]@ == refs_list(g, l) by {
                assert(refs_list(g, l) == refs_list(f.take(i as int), l) + repeat_index(i as int, count_lit(c, l)));
            }
        }
        i += 1;
    }
    proof {
        assert(f.take(i as int) =~= f);
    }
}

/// `l` is the literal of a unit clause among the first `i` clauses.
pub open spec fn unit_literal(f: Seq<Seq<isize>>, i: int, l: isize) -> bool {
    exists|j: int| 0 <= j < i && f[j].len() == 1 && #[trigger] f[j][0] == l
}

/// The literals of the unit clauses of `f`, in clause order, each once.
pub open spec fn unit_trail(f: Seq<Seq<isize>>) -> Seq<isize>
    decreases f.len(),
{
    if f.len() == 0 {
        Seq::empty()
    } else {
        let t = unit_trail(f.drop_last());
        if f.last().len() == 1 && !on(t, f.last()[0] as int) {
            t.push(f.last()[0])
        } else {
            t
        }
    }
}

/// Builds the references, then walks the clauses once: an empty clause, or a
/// unit clause whose literal is already false, ends the walk with `false`;
/// the literal of any other unit clause is assigned at the root.
pub fn connect_clauses(clauses: &mut Vec<Clause>, state: &mut State) -> (r: bool)
    requires
        state_fresh(*old(state)),
        clauses_ready(old(clauses)@, old(state).assignments.half() as int),
    ensures
        formula_of(final(clauses)@) == formula_of(old(clauses)@),
        final(state).assignments.half() == old(state).assignments.half(),
        r == (no_empty(formula_of(old(clauses)@)) && !opposite_units(formula_of(old(clauses)@))),
        r ==> search_inv(final(clauses)@, *final(state)),
        r ==> final(state).level == 0 && final(state).propagated == 0,
        r ==> final(state).control@.len() == 0,
        r ==> final(state).trail@ == unit_trail(formula_of(old(clauses)@)),
        !r ==> !satisfiable(formula_of(old(clauses)@)),
        forall|l: int|
            final(state).references.in_range(l) ==> #[trigger] final(state).references[l]@ == refs_list(
                formula_of(old(clauses)@),
                l,
            ),
{
    let ghost f = formula_of(clauses@);
    let ghost n = state.assignments.half() as int;
    connect_references(clauses, &mut state.references);
    let ghost refs = state.references;
    proof {
        assert(state.trail@ =~= Seq::<isize>::empty());
        assert(f.take(0) =~= Seq::<Seq<isize>>::empty());
        assert forall|l: int| state.assignments.in_range(l) implies #[trigger] state.assignments[l]
            == trail_value(state.trail@, l) by {
            assert(!on(state.trail@, l));
            assert(!on(state.trail@, -l));
        }
    }
    let mut i: usize = 0;
    while i < clauses.len()
        invariant
            formula_of(clauses@) == f,
            f == formula_of(old(clauses)@),
            n == old(state).assignments.half(),
            consistent(clauses@, state.references, state.assignments, state.trail@),
            state.assignments.half() == n,
            state.level == 0,
            state.propagated == 0,
            state.control@.len() == 0,
            i <= f.len(),
            state.references == refs,
            forall|l: int| refs.in_range(l) ==> #[trigger] refs[l]@ == refs_list(f, l),
            state.trail@ == unit_trail(f.take(i as int)),
            forall|q: int| 0 <= q < state.trail@.len() ==> #[trigger] unit_literal(f, i as int, state.trail@[q]),
            forall|j: int|
                0 <= j < i ==> #[trigger] f[j].len() >= 1 && (f[j].len() == 1 ==> on(
                    state.trail@,
                    f[j][0] as int,
                )),
            forall|j: int, k: int|
                0 <= j < i && 0 <= k < i && #[trigger] f[j].len() == 1 && #[trigger] f[k].len() == 1
                    ==> f[j][0] != -f[k][0],
        decreases f.len() - i,
    {
        assert(f[i as int] == clauses@[i as int].literals@);
        assert(f.take(i + 1).drop_last() =~= f.take(i as int));
        assert(f.take(i + 1).last() == f[i as int]);
        let size = clauses[i].size;
        if size == 0 {
            proof {
                assert(!no_empty(f));
                if satisfiable(f) {
                    let m = choose|m: spec_fn(int) -> bool| #[trigger] is_model(m, f);
                    assert(clause_holds(m, f[i as int]));
                }
            }
            return false;
        }
        if size == 1 {
            let u = clauses[i].literals[0];
            let ghost t = state.trail@;
            assert(is_lit(f[i as int][0] as int, n));
            match *state.assignments.index(u) {
                Assignment::Unassigned => {
                    proof {
                        assert(state.assignments[u as int] == trail_value(t, u as int));
                        lemma_assign_ready(clauses@, state.references, state.assignments, t, u);
                    }
                    let ghost a0 = state.assignments;
                    let ghost cs0 = clauses@;
                    assign(u, clauses, &state.references, &mut state.assignments, &mut state.trail);
                    proof {
                        lemma_assign_consistent(cs0, state.references, a0, state.assignments, t, u);
                        let t2 = state.trail@;
                        assert(t2[t.len() as int] == u);
                        assert forall|q: int| 0 <= q < t2.len() implies #[trigger] unit_literal(f, i + 1, t2[q]) by {
                            if q < t.len() {
                                assert(t2[q] == t[q]);
                                assert(unit_literal(f, i as int, t[q]));
                            } else {
                                assert(f[i as int][0] == t2[q]);
                            }
                        }
                        assert forall|j: int| 0 <= j < i + 1 implies #[trigger] f[j].len() >= 1 && (f[j].len() == 1 ==> on(
                            t2,
                            f[j][0] as int,
                        )) by {
                            lemma_on_push(t, u, f[j][0] as int);
                        }
                        assert forall|j: int| 0 <= j < i && #[trigger] f[j].len() == 1 implies f[j][0] != -u by {
                            assert(on(t, f[j][0] as int));
                        }
                    }
                },
                Assignment::False => {
                    proof {
                        assert(state.assignments[u as int] == trail_value(t, u as int));
                        let q = choose|q: int| 0 <= q < t.len() && t[q] as int == -u;
                        assert(unit_literal(f, i as int, t[q]));
                        let j = choose|j: int| 0 <= j < i && f[j].len() == 1 && #[trigger] f[j][0] == t[q];
                        assert(f[i as int].len() == 1 && f[j].len() == 1 && f[i as int][0] == -f[j][0]);
                        assert(opposite_units(f));
                        if satisfiable(f) {
                            let m = choose|m: spec_fn(int) -> bool| #[trigger] is_model(m, f);
                            assert(clause_holds(m, f[i as int]));
                            assert(clause_holds(m, f[j]));
                        }
                    }
                    return false;
                },
                Assignment::True => {
                    proof {
                        assert(state.assignments[u as int] == trail_value(t, u as int));
                        lemma_trail_consistent(t, n, u as int);
                        assert forall|j: int| 0 <= j < i && #[trigger] f[j].len() == 1 implies f[j][0] != -u by {
                            assert(on(t, f[j][0] as int));
                        }
                    }
                },
            }
        }
        state.stats.added = state.stats.added.saturating_add(1);
        proof {
            let t = state.trail@;
            assert forall|q: int| 0 <= q < t.len() implies #[trigger] unit_literal(f, i + 1, t[q]) by {
                if !unit_literal(f, i as int, t[q]) {
                    assert(f[i as int].len() == 1 && f[i as int][0] == t[q]);
                }
            }
        }
        i += 1;
    }
    proof {
        assert(f.take(i as int) =~= f);
        let t = state.trail@;
        let ctl = state.control@;
        assert forall|m: spec_fn(int) -> bool, q: int|
            is_model(m, f) && 0 <= q < t.len() && decisions_hold(m, t, ctl, q) implies #[trigger] holds(
                m,
                t[q] as int,
            ) by {
            assert(unit_literal(f, i as int, t[q]));
            let j = choose|j: int| 0 <= j < i && f[j].len() == 1 && #[trigger] f[j][0] == t[q];
            assert(clause_holds(m, f[j]));
        }
        assert forall|k: int| 0 <= k < f.len() && #[trigger] pending(f[k], t) implies exists|j: int, q: int|
            0 <= j < f[k].len() && 0 <= q < t.len() && t[q] as int == -f[k][j] by {
            let j = lemma_false_witness(f[k], t);
            let q = choose|q: int| 0 <= q < t.len() && t[q] as int == -f[k][j];
        }
        assert(root(t, ctl) == t);
    }
    true
}

/// Pending clauses have a witness after position `p`, or are still to be
/// visited in `r` from index `k` on.
pub open spec fn queued_in(f: Seq<Seq<isize>>, t: Seq<isize>, p: int, r: Seq<usize>, k: int) -> bool {
    forall|c: int|
        0 <= c < f.len() && #[trigger] pending(f[c], t) ==> (exists|j: int, q: int|
            0 <= j < f[c].len() && p < q < t.len() && t[q] as int == -f[c][j]) || (exists|k2: int|
            k <= k2 < r.len() && r[k2] as int == c)
}

/// Propagates the trail from the propagation cursor on: each clause that
/// holds the complement of a trail literal is looked at; a falsified one
/// stops with `false`, a forcing one has its remaining literal assigned.
pub fn propagate(clauses: &mut Vec<Clause>, state: &mut State) -> (r: bool)
    requires
        search_inv(old(clauses)@, *old(state)),
    ensures
        formula_of(final(clauses)@) == formula_of(old(clauses)@),
        search_inv(final(clauses)@, *final(state)),
        final(state).assignments.half() == old(state).assignments.half(),
        final(state).control@ == old(state).control@,
        final(state).level == old(state).level,
        final(state).references == old(state).references,
        old(state).propagated <= final(state).propagated,
        final(state).trail@.len() >= old(state).trail@.len(),
        final(state).trail@.take(old(state).trail@.len() as int) == old(state).trail@,
        r ==> final(state).propagated == final(state).trail@.len(),
        r ==> fixpoint(formula_of(final(clauses)@), final(state).trail@),
        r ==> settled(final(clauses)@),
        !r ==> conflict(formula_of(final(clauses)@), final(state).trail@),
{
    let ghost f = formula_of(clauses@);
    let ghost n = state.assignments.half() as int;
    let ghost t0 = state.trail@;
    let ghost ctl = state.control@;
    proof {
        assert(t0.take(t0.len() as int) =~= t0);
    }
    while state.propagated < state.trail.len()
        invariant
            f == formula_of(clauses@),
            f == formula_of(old(clauses)@),
            n == state.assignments.half(),
            n == old(state).assignments.half(),
            ctl == state.control@,
            ctl == old(state).control@,
            t0 == old(state).trail@,
            state.references == old(state).references,
            state.level == old(state).level,
            old(state).propagated <= state.propagated,
            search_inv(clauses@, *state),
            state.trail@.len() >= t0.len(),
            state.trail@.take(t0.len() as int) == t0,
        decreases n - state.propagated,
    {
        proof {
            lemma_trail_len(state.trail@, n);
        }
        let p = state.propagated;
        let lit = state.trail[p];
        let ghost t1 = state.trail@;
        assert(is_lit(lit as int, n));
        let refs = state.references.index(-lit);
        let ghost r = refs@;
        proof {
            assert(r == state.references[-lit]@);
            assert forall|c: int| 0 <= c < f.len() && #[trigger] pending(f[c], t1) implies (exists|j: int, q: int|
                0 <= j < f[c].len() && p < q < t1.len() && t1[q] as int == -f[c][j]) || (exists|k2: int|
                0 <= k2 < r.len() && r[k2] as int == c) by {
                let (j, q) = choose|j: int, q: int| 0 <= j < f[c].len() && p <= q < t1.len() && t1[q] as int == -f[c][j];
                if q == p {
                    lemma_count_lit_pos(f[c], j);
                    assert(count_ref(r, c) == count_lit(f[c], -lit));
                    let k2 = lemma_count_ref_witness(r, c);
                }
            }
        }
        let mut k: usize = 0;
        while k < refs.len()
            invariant
                f == formula_of(clauses@),
                f == formula_of(old(clauses)@),
                n == state.assignments.half(),
                n == old(state).assignments.half(),
                ctl == state.control@,
                ctl == old(state).control@,
                t0 == old(state).trail@,
                state.references == old(state).references,
                state.level == old(state).level,
                old(state).propagated <= state.propagated,
                r == refs@,
                r == state.references[-lit]@,
                is_lit(lit as int, n),
                consistent(clauses@, state.references, state.assignments, state.trail@),
                no_empty(f),
                ctl.len() == state.level,
                control_ok(ctl, state.trail@.len() as int),
                implied(f, state.trail@, ctl),
                fixpoints_kept(f, state.trail@, ctl),
                units_rooted(f, state.trail@, ctl),
                state.propagated == p,
                p < t1.len(),
                state.trail@.len() >= t1.len(),
                state.trail@.take(t1.len() as int) == t1,
                t1[p as int] == lit,
                t1.len() >= t0.len(),
                t1.take(t0.len() as int) == t0,
                k <= r.len(),
                queued_in(f, state.trail@, p as int, r, k as int),
            decreases r.len() - k,
        {
            let ghost t = state.trail@;
            let ci = refs[k];
            proof {
                assert(state.references.in_range(-lit));
                assert(ci < clauses@.len());
                assert(f[ci as int] == clauses@[ci as int].literals@);
                assert(clauses@[ci as int].counts_match(t));
                crate::model::lemma_counts_bounded(f[ci as int], t);
            }
            match status(&clauses[ci]) {
                Status::Unresolved | Status::Satisfied => {
                    proof {
                        assert(!pending(f[ci as int], t));
                    }
                },
                Status::Falsified => {
                    proof {
                        assert(n_false(f[ci as int], t) == f[ci as int].len());
                        assert(t.take(t0.len() as int) =~= t0) by {
                            assert(t.take(t1.len() as int).take(t0.len() as int) =~= t.take(t0.len() as int));
                        }
                        assert forall|c: int| 0 <= c < f.len() && #[trigger] pending(f[c], t) implies exists|j: int, q: int|
                            0 <= j < f[c].len() && p <= q < t.len() && t[q] as int == -f[c][j] by {
                            if !(exists|j: int, q: int| 0 <= j < f[c].len() && p < q < t.len() && t[q] as int == -f[c][j]) {
                                let k2 = choose|k2: int| k <= k2 < r.len() && r[k2] as int == c;
                                crate::model::lemma_count_ref_pos(r, k2);
                                assert(count_ref(r, c) == count_lit(f[c], -lit));
                                lemma_count_witness(f[c], -lit);
                                let j = choose|j: int| 0 <= j < f[c].len() && f[c][j] as int == -lit;
                                assert(t[p as int] == t1[p as int]);
                            }
                        }
                    }
                    state.stats.conflicts = state.stats.conflicts.saturating_add(1);
                    return false;
                },
                Status::Forcing(m) => {
                    let ghost cs0 = clauses@;
                    let ghost a0 = state.assignments;
                    let ghost c = f[ci as int];
                    let ghost j = lemma_forcing(c, t, n);
                    proof {
                        assert(is_lit(c[j] as int, n));
                        lemma_assign_ready(cs0, state.references, a0, t, m);
                        lemma_implied_forced(f, t, ctl, ci as int, j);
                        lemma_push_keeps_history(f, t, ctl, m);
                    }
                    assign(m, clauses, &state.references, &mut state.assignments, &mut state.trail);
                    proof {
                        lemma_assign_consistent(cs0, state.references, a0, state.assignments, t, m);
                        let t2 = state.trail@;
                        assert(t2 == t.push(m));
                        assert(t2.take(t1.len() as int) =~= t1) by {
                            assert(t.take(t1.len() as int) == t1);
                        }
                        lemma_count_lit_pos(c, j);
                        lemma_counts_push(c, t, m);
                        assert forall|c2: int| 0 <= c2 < f.len() && #[trigger] pending(f[c2], t2) implies (exists|j2: int, q: int|
                            0 <= j2 < f[c2].len() && p < q < t2.len() && t2[q] as int == -f[c2][j2]) || (exists|k2: int|
                            k + 1 <= k2 < r.len() && r[k2] as int == c2) by {
                            if pending(f[c2], t) {
                                if exists|j2: int, q: int| 0 <= j2 < f[c2].len() && p < q < t.len() && t[q] as int == -f[c2][j2] {
                                    let (j2, q) = choose|j2: int, q: int| 0 <= j2 < f[c2].len() && p < q < t.len() && t[q] as int == -f[c2][j2];
                                    assert(t2[q] == t[q]);
                                } else {
                                    let k2 = choose|k2: int| k <= k2 < r.len() && r[k2] as int == c2;
                                    if k2 == k {
                                        lemma_counts_push(f[c2], t, m);
                                    }
                                }
                            } else {
                                lemma_pending_push(f[c2], t, m);
                                let j2 = choose|j2: int| 0 <= j2 < f[c2].len() && f[c2][j2] as int == -m;
                                assert(t2[t.len() as int] as int == -f[c2][j2]);
                            }
                        }
                    }
                },
            }
            proof {
                let t2 = state.trail@;
                if !(t2.len() > t.len()) {
                    assert forall|c2: int| 0 <= c2 < f.len() && #[trigger] pending(f[c2], t2) implies (exists|j2: int, q: int|
                        0 <= j2 < f[c2].len() && p < q < t2.len() && t2[q] as int == -f[c2][j2]) || (exists|k2: int|
                        k + 1 <= k2 < r.len() && r[k2] as int == c2) by {
                        if !(exists|j2: int, q: int| 0 <= j2 < f[c2].len() && p < q < t2.len() && t2[q] as int == -f[c2][j2]) {
                            let k2 = choose|k2: int| k <= k2 < r.len() && r[k2] as int == c2;
                            assert(k2 != k);
                        }
                    }
                }
            }
            k += 1;
        }
        state.propagated = state.propagated + 1;
        state.stats.propagations = state.stats.propagations.saturating_add(1);
        proof {
            let t = state.trail@;
            assert(t.take(t0.len() as int) =~= t0) by {
                assert(t.take(t1.len() as int).take(t0.len() as int) =~= t.take(t0.len() as int));
            }
        }
    }
    proof {
        let t = state.trail@;
        assert forall|i: int| 0 <= i < f.len() implies !#[trigger] pending(f[i], t) by {
            if pending(f[i], t) {
                let (j, q) = choose|j: int, q: int| 0 <= j < f[i].len() && state.propagated <= q < t.len() && t[q] as int == -f[i][j];
            }
        }
        lemma_fixpoint_settled(clauses@, *state);
    }
    true
}

/// Occurrences of `x` in the clause when it is unresolved.
pub open spec fn unresolved_count(c: Clause, x: int) -> nat {
    if status_of(c) == Status::Unresolved {
        count_lit(c.literals@, x)
    } else {
        0
    }
}

/// Occurrences of `x` in the unresolved clauses among the first `i`.
pub open spec fn tally_upto(cs: Seq<Clause>, x: int, i: int) -> nat
    decreases i,
{
    if i <= 0 {
        0
    } else {
        tally_upto(cs, x, i - 1) + unresolved_count(cs[i - 1], x)
    }
}

/// The score of a literal for the decision: its occurrences in the
/// unresolved clauses when it is unassigned, else nothing.
pub open spec fn tally(cs: Seq<Clause>, a: NVec<Assignment>, x: int) -> nat {
    if a[x] == Assignment::Unassigned {
        tally_upto(cs, x, cs.len() as int)
    } else {
        0
    }
}

/// The score of `x` after the scan reached literal `j` of clause `i`.
pub open spec fn running(cs: Seq<Clause>, a: NVec<Assignment>, x: int, i: int, j: int) -> nat {
    if a[x] == Assignment::Unassigned {
        tally_upto(cs, x, i) + if 0 <= i < cs.len() && status_of(cs[i]) == Status::Unresolved {
            count_lit(cs[i].literals@.take(j), x)
        } else {
            0
        }
    } else {
        0
    }
}

/// Listings of the indices below `k` in `r`.
pub open spec fn ref_total(r: Seq<usize>, k: int) -> nat
    decreases k,
{
    if k <= 0 {
        0
    } else {
        ref_total(r, k - 1) + count_ref(r, k - 1)
    }
}

proof fn lemma_ref_total_step(r: Seq<usize>, k: int)
    requires
        r.len() > 0,
        k >= 0,
    ensures
        ref_total(r, k) == ref_total(r.drop_last(), k) + if r.last() < k {
            1nat
        } else {
            0nat
        },
    decreases k,
{
    if k > 0 {
        lemma_ref_total_step(r, k - 1);
    }
}

proof fn lemma_ref_total(r: Seq<usize>, k: int)
    requires
        k >= 0,
        forall|q: int| 0 <= q < r.len() ==> (#[trigger] r[q]) < k,
    ensures
        ref_total(r, k) == r.len(),
    decreases r.len(),
{
    if r.len() == 0 {
        lemma_ref_total_empty(r, k);
    } else {
        let d = r.drop_last();
        assert forall|q: int| 0 <= q < d.len() implies (#[trigger] d[q]) < k by {
            assert(d[q] == r[q]);
        }
        lemma_ref_total(d, k);
        lemma_ref_total_step(r, k);
        assert(r[r.len() - 1] < k);
    }
}

proof fn lemma_ref_total_empty(r: Seq<usize>, k: int)
    requires
        r.len() == 0,
    ensures
        ref_total(r, k) == 0,
    decreases k,
{
    if k > 0 {
        lemma_ref_total_empty(r, k - 1);
    }
}

proof fn lemma_ref_total_mono(r: Seq<usize>, i: int, k: int)
    requires
        0 <= i <= k,
    ensures
        ref_total(r, i) <= ref_total(r, k),
    decreases k - i,
{
    if i < k {
        lemma_ref_total_mono(r, i, k - 1);
    }
}

/// The score of a literal never exceeds the length of its reference list.
proof fn lemma_tally_bound(cs: Seq<Clause>, refs: NVec<Vec<usize>>, x: int, i: int)
    requires
        refs_exact(refs, formula_of(cs)),
        refs.in_range(x),
        0 <= i <= cs.len(),
    ensures
        tally_upto(cs, x, i) <= refs[x]@.len(),
{
    lemma_tally_refs(cs, refs, x, i);
    lemma_ref_total_mono(refs[x]@, i, cs.len() as int);
    assert forall|q: int| 0 <= q < refs[x]@.len() implies (#[trigger] refs[x]@[q]) < cs.len() by {
        assert(refs_in_bounds(refs, cs.len() as int));
    }
    lemma_ref_total(refs[x]@, cs.len() as int);
}

proof fn lemma_tally_refs(cs: Seq<Clause>, refs: NVec<Vec<usize>>, x: int, i: int)
    requires
        refs_exact(refs, formula_of(cs)),
        refs.in_range(x),
        0 <= i <= cs.len(),
    ensures
        tally_upto(cs, x, i) <= ref_total(refs[x]@, i),
    decreases i,
{
    if i > 0 {
        lemma_tally_refs(cs, refs, x, i - 1);
        assert(formula_of(cs)[i - 1] == cs[i - 1].literals@);
        assert(count_ref(refs[x]@, i - 1) == count_lit(formula_of(cs)[i - 1], x));
    }
}

proof fn lemma_count_lit_take(c: Seq<isize>, j: int, x: int)
    requires
        0 <= j < c.len(),
    ensures
        count_lit(c.take(j + 1), x) == count_lit(c.take(j), x) + if c[j] as int == x {
            1nat
        } else {
            0nat
        },
        count_lit(c.take(j + 1), x) <= count_lit(c, x),
{
    assert(c.take(j + 1).drop_last() =~= c.take(j));
    lemma_count_lit_prefix(c, j + 1, x);
}

proof fn lemma_count_lit_prefix(c: Seq<isize>, k: int, x: int)
    requires
        0 <= k <= c.len(),
    ensures
        count_lit(c.take(k), x) <= count_lit(c, x),
    decreases c.len(),
{
    if k < c.len() {
        assert(c.drop_last().take(k) =~= c.take(k));
        lemma_count_lit_prefix(c.drop_last(), k, x);
    } else {
        assert(c.take(k) =~= c);
    }
}

/// Some unassigned literal occurs in an unresolved clause among the first
/// `i` clauses, or at one of the first `j` positions of clause `i`.
pub open spec fn open_literal_before(cs: Seq<Clause>, a: NVec<Assignment>, i: int, j: int) -> bool {
    exists|i2: int, j2: int|
        0 <= i2 < cs.len() && 0 <= j2 < cs[i2].literals@.len() && (i2 < i || (i2 == i && j2 < j))
            && status_of(cs[i2]) == Status::Unresolved && #[trigger] a[cs[i2].literals@[j2] as int]
            == Assignment::Unassigned
}

/// Some unassigned literal occurs in an unresolved clause.
pub open spec fn open_literal(cs: Seq<Clause>, a: NVec<Assignment>) -> bool {
    open_literal_before(cs, a, cs.len() as int, 0)
}

/// Decides on a literal by the dynamic largest individual sum: among the
/// unassigned literals of the unresolved clauses, the one with the most
/// occurrences there, the first one met on a tie. The literal opens a new
/// decision level. Returns false when there is none: every clause is then
/// satisfied.
pub fn decide(cnf: &mut Cnf, state: &mut State) -> (r: bool)
    requires
        search_inv(old(cnf).clauses@, *old(state)),
        fixpoint(formula_of(old(cnf).clauses@), old(state).trail@),
        settled(old(cnf).clauses@),
        old(cnf).num_variables == old(state).assignments.half(),
    ensures
        r == open_literal(old(cnf).clauses@, old(state).assignments),
        formula_of(final(cnf).clauses@) == formula_of(old(cnf).clauses@),
        final(cnf).num_variables == old(cnf).num_variables,
        final(state).assignments.half() == old(state).assignments.half(),
        search_inv(final(cnf).clauses@, *final(state)),
        !r ==> final(cnf).clauses@ == old(cnf).clauses@ && final(state).trail@ == old(state).trail@
            && final(state).control@ == old(state).control@,
        !r ==> forall|i: int|
            0 <= i < final(cnf).clauses@.len() ==> #[trigger] final(cnf).clauses@[i].num_true > 0,
        r ==> final(state).control@ == old(state).control@.push(old(state).trail@.len() as usize),
        r ==> final(state).trail@.len() == old(state).trail@.len() + 1,
        r ==> final(state).trail@.take(old(state).trail@.len() as int) == old(state).trail@,
        r ==> old(state).assignments[final(state).trail@.last() as int] == Assignment::Unassigned,
        final(state).propagated == old(state).propagated,
        final(state).references == old(state).references,
        !r ==> final(state).assignments == old(state).assignments && final(state).level
            == old(state).level,
        r ==> final(state).level == old(state).level + 1,
        r ==> final(cnf).clauses@ == after_assign(
            old(cnf).clauses@,
            old(state).references,
            final(state).trail@.last() as int,
        ),
        r ==> assigned(old(state).assignments, final(state).assignments, final(state).trail@.last() as int),
        r ==> tally(old(cnf).clauses@, old(state).assignments, final(state).trail@.last() as int) >= 1,
        r ==> forall|x: int|
            old(state).assignments.in_range(x) ==> #[trigger] tally(old(cnf).clauses@, old(state).assignments, x)
                <= tally(old(cnf).clauses@, old(state).assignments, final(state).trail@.last() as int),
{
    let ghost cs = cnf.clauses@;
    let ghost f = formula_of(cs);
    let ghost a = state.assignments;
    let ghost n = a.half() as int;
    let ghost t = state.trail@;
    proof {
        lemma_trail_len(t, n);
    }
    let mut scores: NVec<usize> = NVec::new(cnf.num_variables);
    let mut max: usize = 0;
    let mut literal: isize = 0;
    let mut i: usize = 0;
    proof {
        assert forall|x: int| scores.in_range(x) implies #[trigger] scores[x] == running(cs, a, x, 0, 0) by {
            assert(scores@[scores.half() - x] == 0);
            if cs.len() > 0 {
                assert(cs[0].literals@.take(0) =~= Seq::<isize>::empty());
            }
        }
    }
    while i < cnf.clauses.len()
        invariant
            cs == cnf.clauses@,
            f == formula_of(cs),
            a == state.assignments,
            n == a.half(),
            consistent(cs, state.references, a, t),
            scores.wf(),
            scores.half() == n,
            i <= cs.len(),
            forall|x: int| scores.in_range(x) ==> #[trigger] scores[x] == running(cs, a, x, i as int, 0),
            forall|x: int| scores.in_range(x) ==> #[trigger] scores[x] <= max,
            literal != 0 ==> scores[literal as int] == max,
            (max == 0) == (literal == 0),
            (literal == 0) == !open_literal_before(cs, a, i as int, 0),
            literal != 0 ==> is_lit(literal as int, n) && a[literal as int] == Assignment::Unassigned,
        decreases cs.len() - i,
    {
        if let Status::Unresolved = status(&cnf.clauses[i]) {
            let mut j: usize = 0;
            while j < cnf.clauses[i].literals.len()
                invariant
                    cs == cnf.clauses@,
                    f == formula_of(cs),
                    a == state.assignments,
                    n == a.half(),
                    consistent(cs, state.references, a, t),
                    scores.wf(),
                    scores.half() == n,
                    i < cs.len(),
                    status_of(cs[i as int]) == Status::Unresolved,
                    j <= cs[i as int].literals@.len(),
                    forall|x: int| scores.in_range(x) ==> #[trigger] scores[x] == running(cs, a, x, i as int, j as int),
                    forall|x: int| scores.in_range(x) ==> #[trigger] scores[x] <= max,
                    literal != 0 ==> scores[literal as int] == max,
                    (max == 0) == (literal == 0),
                    (literal == 0) == !open_literal_before(cs, a, i as int, j as int),
                    literal != 0 ==> is_lit(literal as int, n) && a[literal as int] == Assignment::Unassigned,
                decreases cs[i as int].literals@.len() - j,
            {
                let lit = cnf.clauses[i].literals[j];
                assert(f[i as int] == cs[i as int].literals@);
                assert(is_lit(f[i as int][j as int] as int, n));
                let ghost s0 = scores;
                proof {
                    assert(cs[i as int].literals@[j as int] == lit);
                    assert forall|x: int| scores.in_range(x) && x != lit as int implies running(cs, a, x, i as int, j + 1)
                        == #[trigger] running(cs, a, x, i as int, j as int) by {
                        lemma_count_lit_take(cs[i as int].literals@, j as int, x);
                    }
                    lemma_count_lit_take(cs[i as int].literals@, j as int, lit as int);
                }
                if let Assignment::Unassigned = *state.assignments.index(lit) {
                    // a score never exceeds the length of the reference list of its literal
                    let listed = state.references.index(lit).len();
                    proof {
                        assert(scores[lit as int] == running(cs, a, lit as int, i as int, j as int));
                        assert(tally_upto(cs, lit as int, i + 1) == tally_upto(cs, lit as int, i as int) + unresolved_count(cs[i as int], lit as int));
                        lemma_tally_bound(cs, state.references, lit as int, i + 1);
                        crate::model::lemma_count_lit_bounded(cs[i as int].literals@, lit as int);
                    }
                    let score = *scores.index(lit) + 1;
                    if score > max {
                        max = score;
                        literal = lit;
                    }
                    *scores.index_mut(lit) = score;
                    proof {
                        assert forall|x: int| scores.in_range(x) && x != lit as int implies #[trigger] scores[x] == s0[x] by {
                            assert(scores.half() - x != s0.half() - lit);
                        }
                    }
                    proof {
                        assert(open_literal_before(cs, a, i as int, j + 1)) by {
                            assert(a[cs[i as int].literals@[j as int] as int] == Assignment::Unassigned);
                        }
                    }
                } else {
                    proof {
                        assert(running(cs, a, lit as int, i as int, j + 1) == 0);
                        if open_literal_before(cs, a, i as int, j + 1) {
                            let (i2, j2) = choose|i2: int, j2: int|
                                0 <= i2 < cs.len() && 0 <= j2 < cs[i2].literals@.len() && (i2 < i || (i2 == i && j2 < j + 1))
                                    && status_of(cs[i2]) == Status::Unresolved && #[trigger] a[cs[i2].literals@[j2] as int]
                                    == Assignment::Unassigned;
                            assert(open_literal_before(cs, a, i as int, j as int));
                        }
                    }
                }
                j += 1;
            }
            proof {
                assert(cs[i as int].literals@.take(j as int) =~= cs[i as int].literals@);
                assert forall|x: int| scores.in_range(x) implies #[trigger] scores[x] == running(cs, a, x, i + 1, 0) by {
                    assert(cs[i as int].literals@.take(j as int) == cs[i as int].literals@);
                    if i + 1 < cs.len() {
                        assert(cs[i + 1].literals@.take(0) =~= Seq::<isize>::empty());
                    }
                }
                if open_literal_before(cs, a, i + 1, 0) {
                    let (i2, j2) = choose|i2: int, j2: int|
                        0 <= i2 < cs.len() && 0 <= j2 < cs[i2].literals@.len() && (i2 < i + 1 || (i2 == i + 1 && j2 < 0))
                            && status_of(cs[i2]) == Status::Unresolved && #[trigger] a[cs[i2].literals@[j2] as int]
                            == Assignment::Unassigned;
                    assert(open_literal_before(cs, a, i as int, j as int));
                }
                if open_literal_before(cs, a, i as int, j as int) {
                    let (i2, j2) = choose|i2: int, j2: int|
                        0 <= i2 < cs.len() && 0 <= j2 < cs[i2].literals@.len() && (i2 < i || (i2 == i && j2 < j))
                            && status_of(cs[i2]) == Status::Unresolved && #[trigger] a[cs[i2].literals@[j2] as int]
                            == Assignment::Unassigned;
                    assert(open_literal_before(cs, a, i + 1, 0));
                }
            }
        } else {
            proof {
                assert forall|x: int| scores.in_range(x) implies #[trigger] scores[x] == running(cs, a, x, i + 1, 0) by {
                    assert(scores[x] == running(cs, a, x, i as int, 0));
                    if i + 1 < cs.len() {
                        assert(cs[i + 1].literals@.take(0) =~= Seq::<isize>::empty());
                    }
                }
                if open_literal_before(cs, a, i + 1, 0) {
                    let (i2, j2) = choose|i2: int, j2: int|
                        0 <= i2 < cs.len() && 0 <= j2 < cs[i2].literals@.len() && (i2 < i + 1 || (i2 == i + 1 && j2 < 0))
                            && status_of(cs[i2]) == Status::Unresolved && #[trigger] a[cs[i2].literals@[j2] as int]
                            == Assignment::Unassigned;
                    assert(open_literal_before(cs, a, i as int, 0));
                }
                if open_literal_before(cs, a, i as int, 0) {
                    let (i2, j2) = choose|i2: int, j2: int|
                        0 <= i2 < cs.len() && 0 <= j2 < cs[i2].literals@.len() && (i2 < i || (i2 == i && j2 < 0))
                            && status_of(cs[i2]) == Status::Unresolved && #[trigger] a[cs[i2].literals@[j2] as int]
                            == Assignment::Unassigned;
                    assert(open_literal_before(cs, a, i + 1, 0));
                }
            }
        }
        i += 1;
    }
    if literal == 0 {
        proof {
            assert forall|k: int| 0 <= k < cs.len() implies #[trigger] cs[k].num_true > 0 by {
                assert(status_of(cs[k]) == Status::Satisfied || status_of(cs[k]) == Status::Unresolved);
                if status_of(cs[k]) == Status::Unresolved {
                    let c = f[k];
                    assert(c == cs[k].literals@);
                    assert(cs[k].counts_match(t));
                    assert forall|j: int| 0 <= j < c.len() implies on(t, c[j] as int) || on(t, -c[j]) by {
                        assert(is_lit(c[j] as int, n));
                        assert(a[c[j] as int] == trail_value(t, c[j] as int));
                        if !(on(t, c[j] as int) || on(t, -c[j])) {
                            assert(a[cs[k].literals@[j] as int] == Assignment::Unassigned);
                            assert(open_literal_before(cs, a, cs.len() as int, 0));
                        }
                    }
                    crate::model::lemma_all_assigned(c, t);
                    crate::model::lemma_counts_bounded(c, t);
                }
            }
        }
        return false;
    }
    let ghost cs0 = cnf.clauses@;
    let ghost ctl_old = state.control@;
    proof {
        assert forall|x: int| a.in_range(x) implies #[trigger] tally(cs, a, x) <= tally(cs, a, literal as int) by {
            assert(scores.in_range(x));
            assert(scores[x] == running(cs, a, x, cs.len() as int, 0));
        }
        assert(scores[literal as int] == running(cs, a, literal as int, cs.len() as int, 0));
        lemma_control_len(ctl_old, t.len() as int);
        assert(a[literal as int] == trail_value(t, literal as int));
        lemma_assign_ready(cs0, state.references, a, t, literal);
        lemma_push_keeps_history(f, t, state.control@, literal);
    }
    state.level = state.level + 1;
    state.control.push(state.trail.len());
    assign(literal, &mut cnf.clauses, &state.references, &mut state.assignments, &mut state.trail);
    state.stats.decisions = state.stats.decisions.saturating_add(1);
    proof {
        lemma_assign_consistent(cs0, state.references, a, state.assignments, t, literal);
        let t2 = state.trail@;
        let ctl = state.control@;
        let ctl0 = ctl.drop_last();
        assert(ctl0 =~= ctl_old);
        assert(t2 == t.push(literal));
        assert(t2.take(t.len() as int) =~= t);
        assert forall|m: spec_fn(int) -> bool, q: int|
            is_model(m, f) && 0 <= q < t2.len() && decisions_hold(m, t2, ctl, q) implies #[trigger] holds(
                m,
                t2[q] as int,
            ) by {
            if q < t.len() {
                assert(t2[q] == t[q]);
                assert forall|i2: int| 0 <= i2 < ctl0.len() && ctl0[i2] <= q implies #[trigger] holds(m, t[ctl0[i2] as int] as int) by {
                    assert(ctl[i2] == ctl0[i2]);
                    assert(t2[ctl0[i2] as int] == t[ctl0[i2] as int]);
                    assert(holds(m, t2[ctl[i2] as int] as int));
                }
                assert(decisions_hold(m, t, ctl0, q));
            } else {
                assert(ctl[ctl0.len() as int] as int == q);
                assert(holds(m, t2[ctl[ctl0.len() as int] as int] as int));
            }
        }
        assert forall|k: int| 0 <= k < ctl.len() implies fixpoint(f, t2.take(#[trigger] ctl[k] as int)) by {
            if k < ctl0.len() {
                assert(ctl[k] == ctl0[k]);
                assert(t2.take(ctl[k] as int) =~= t.take(ctl0[k] as int));
            }
        }
        if ctl0.len() == 0 {
            assert(root(t2, ctl) =~= root(t, ctl0));
        } else {
            assert(root(t2, ctl) =~= root(t, ctl0));
        }
        assert forall|c: int| 0 <= c < f.len() && #[trigger] pending(f[c], t2) implies exists|j: int, q: int|
            0 <= j < f[c].len() && state.propagated <= q < t2.len() && t2[q] as int == -f[c][j] by {
            lemma_pending_push(f[c], t, literal);
            let j = choose|j: int| 0 <= j < f[c].len() && f[c][j] as int == -literal;
            assert(t2[t.len() as int] as int == -f[c][j]);
        }
    }
    true
}

/// After a conflict, the complement of the last decision, put in its place,
/// is implied by the formula and the decisions below it.
proof fn lemma_flip_implied(f: Seq<Seq<isize>>, t: Seq<isize>, ctl: Seq<usize>, l: isize)
    requires
        implied(f, t, ctl),
        control_ok(ctl, t.len() as int),
        conflict(f, t),
        ctl.len() > 0,
        l == t[ctl.last() as int],
        l != 0,
        l > isize::MIN,
        forall|i: int, j: int| 0 <= i < f.len() && 0 <= j < f[i].len() ==> #[trigger] f[i][j] != 0,
    ensures
        implied(f, t.take(ctl.last() as int).push((-l) as isize), ctl.drop_last()),
{
    let length = ctl.last() as int;
    let ctl2 = ctl.drop_last();
    let x = (-l) as isize;
    let t3 = t.take(length).push(x);
    assert forall|i: int| 0 <= i < ctl2.len() implies #[trigger] ctl2[i] < length by {
        assert(ctl[i] < ctl[ctl.len() - 1]);
    }
    assert forall|m: spec_fn(int) -> bool, q: int|
        is_model(m, f) && 0 <= q < t3.len() && decisions_hold(m, t3, ctl2, q) implies #[trigger] holds(
            m,
            t3[q] as int,
        ) by {
        if q < length {
            assert(t3[q] == t[q]);
            assert forall|i: int| 0 <= i < ctl.len() && ctl[i] <= q implies #[trigger] holds(m, t[ctl[i] as int] as int) by {
                assert(i < ctl2.len());
                assert(ctl2[i] == ctl[i]);
                assert(t3[ctl2[i] as int] == t[ctl[i] as int]);
                assert(holds(m, t3[ctl2[i] as int] as int));
            }
            assert(decisions_hold(m, t, ctl, q));
        } else {
            assert(q == length);
            if !holds(m, x as int) {
                lemma_holds_neg(m, l as int);
                assert forall|i: int| 0 <= i < ctl.len() implies #[trigger] holds(m, t[ctl[i] as int] as int) by {
                    if i < ctl2.len() {
                        assert(ctl2[i] == ctl[i]);
                        assert(t3[ctl2[i] as int] == t[ctl[i] as int]);
                        assert(holds(m, t3[ctl2[i] as int] as int));
                    } else {
                        assert(ctl[i] == ctl.last());
                    }
                }
                lemma_conflict_refutes(f, t, ctl, m);
            }
        }
    }
}

/// Returns false at the root: the formula is then unsatisfiable. Otherwise
/// closes the last decision level: unassigns the trail above its decision,
/// then the decision itself, assigns the complement of the decision in its
/// place and resets the propagation cursor to it.
pub fn backtrack(clauses: &mut Vec<Clause>, state: &mut State) -> (r: bool)
    requires
        search_inv(old(clauses)@, *old(state)),
        conflict(formula_of(old(clauses)@), old(state).trail@),
    ensures
        formula_of(final(clauses)@) == formula_of(old(clauses)@),
        final(state).assignments.half() == old(state).assignments.half(),
        r == (old(state).level > 0),
        !r ==> !satisfiable(formula_of(old(clauses)@)),
        !r ==> *final(state) == *old(state) && final(clauses)@ == old(clauses)@,
        final(state).references == old(state).references,
        r ==> final(state).level == old(state).level - 1,
        r ==> search_inv(final(clauses)@, *final(state)),
        r ==> {
            let length = old(state).control@.last() as int;
            &&& final(state).control@ == old(state).control@.drop_last()
            &&& final(state).trail@ == old(state).trail@.take(length).push(
                (-old(state).trail@[length]) as isize,
            )
            &&& final(state).propagated == length
        },
{
    let ghost f = formula_of(clauses@);
    let ghost n = state.assignments.half() as int;
    let ghost t = state.trail@;
    let ghost ctl = state.control@;
    if state.level == 0 {
        proof {
            if satisfiable(f) {
                let m = choose|m: spec_fn(int) -> bool| #[trigger] is_model(m, f);
                lemma_conflict_refutes(f, t, ctl, m);
            }
        }
        return false;
    }
    let length = state.control.pop().unwrap();
    let ghost ctl2 = state.control@;
    proof {
        assert(ctl2 =~= ctl.drop_last());
        assert(length < t.len());
    }
    while state.trail.len() > length + 1
        invariant
            f == formula_of(clauses@),
            f == formula_of(old(clauses)@),
            n == state.assignments.half(),
            n == old(state).assignments.half(),
            t == old(state).trail@,
            ctl2 == state.control@,
            ctl2 == old(state).control@.drop_last(),
            length == old(state).control@.last(),
            state.references == old(state).references,
            length < t.len(),
            length + 1 <= state.trail@.len() <= t.len(),
            state.trail@ == t.take(state.trail@.len() as int),
            consistent(clauses@, state.references, state.assignments, state.trail@),
            state.level == old(state).level,
            state.propagated == old(state).propagated,
        decreases state.trail@.len(),
    {
        let ghost t1 = state.trail@;
        let l = state.trail.pop().unwrap();
        let ghost cs0 = clauses@;
        let ghost a0 = state.assignments;
        proof {
            assert(t1 == state.trail@.push(l));
            lemma_unassign_ready(cs0, state.references, a0, state.trail@, l);
        }
        unassign(l, clauses, &state.references, &mut state.assignments);
        proof {
            lemma_unassign_consistent(cs0, state.references, a0, state.assignments, state.trail@, l);
            assert(state.trail@ =~= t.take(state.trail@.len() as int));
        }
    }
    let ghost t1 = state.trail@;
    let l = state.trail.pop().unwrap();
    let ghost cs0 = clauses@;
    let ghost a0 = state.assignments;
    let ghost t2 = state.trail@;
    proof {
        assert(t1 == t2.push(l));
        assert(t2 =~= t.take(length as int));
        assert(l == t[length as int]);
        lemma_unassign_ready(cs0, state.references, a0, t2, l);
    }
    unassign(l, clauses, &state.references, &mut state.assignments);
    let ghost cs1 = clauses@;
    let ghost a1 = state.assignments;
    proof {
        lemma_unassign_consistent(cs0, state.references, a0, a1, t2, l);
        assert(a1.in_range(-l));
        assert(a1[-l] == trail_value(t2, -l));
        lemma_assign_ready(cs1, state.references, a1, t2, (-l) as isize);
    }
    assign(-l, clauses, &state.references, &mut state.assignments, &mut state.trail);
    state.level = state.level - 1;
    state.propagated = length;
    proof {
        lemma_assign_consistent(cs1, state.references, a1, state.assignments, t2, (-l) as isize);
        let t3 = state.trail@;
        let x = (-l) as isize;
        assert(t3 == t2.push(x));
        // decisions below the closed level
        assert forall|i: int| 0 <= i < ctl2.len() implies #[trigger] ctl2[i] < length by {
            assert(ctl[i] < ctl[ctl.len() - 1]);
        }
        lemma_control_len(ctl, t.len() as int);
        assert(ctl.last() == length);
        assert(crate::model::is_lit(t[length as int] as int, n));
        assert forall|i: int, j: int| 0 <= i < f.len() && 0 <= j < f[i].len() implies #[trigger] f[i][j] != 0 by {
            assert(crate::model::is_lit(f[i][j] as int, n));
        }
        lemma_flip_implied(f, t, ctl, l);
        assert(t3 == t.take(length as int).push(x));
        assert forall|i: int| 0 <= i < ctl2.len() implies fixpoint(f, t3.take(#[trigger] ctl2[i] as int)) by {
            assert(ctl2[i] == ctl[i]);
            assert(t3.take(ctl2[i] as int) =~= t.take(ctl[i] as int));
        }
        assert(ctl[ctl.len() - 1] == length);
        assert(fixpoint(f, t.take(length as int)));
        if ctl2.len() > 0 {
            assert(root(t3, ctl2) =~= root(t, ctl));
        } else {
            assert(root(t, ctl) =~= t2);
            assert forall|i: int| 0 <= i < f.len() && #[trigger] f[i].len() == 1 implies on(root(t3, ctl2), f[i][0] as int) by {
                lemma_on_push(t2, x, f[i][0] as int);
            }
        }
        assert forall|c: int| 0 <= c < f.len() && #[trigger] pending(f[c], t3) implies exists|j: int, q: int|
            0 <= j < f[c].len() && length <= q < t3.len() && t3[q] as int == -f[c][j] by {
            assert(!pending(f[c], t2));
            lemma_pending_push(f[c], t2, x);
            let j = choose|j: int| 0 <= j < f[c].len() && f[c][j] as int == -x;
            assert(t3[length as int] as int == -f[c][j]);
        }
    }
    true
}

/// The model that reads an assignment, unassigned variables taken as true.
pub open spec fn model_of(a: NVec<Assignment>) -> spec_fn(int) -> bool {
    |v: int| a[v] != Assignment::False
}

/// When every clause has a true literal the assignment is a model.
proof fn lemma_model(cs: Seq<Clause>, refs: NVec<Vec<usize>>, a: NVec<Assignment>, t: Seq<isize>)
    requires
        consistent(cs, refs, a, t),
        forall|i: int| 0 <= i < cs.len() ==> #[trigger] cs[i].num_true > 0,
    ensures
        is_model(model_of(a), formula_of(cs)),
        true_in_every_clause(a, formula_of(cs)),
{
    let f = formula_of(cs);
    let n = a.half() as int;
    let m = model_of(a);
    assert forall|i: int| 0 <= i < f.len() implies #[trigger] clause_holds(m, f[i]) by {
        assert(f[i] == cs[i].literals@);
        assert(cs[i].counts_match(t));
        assert(cs[i].num_true > 0);
        let j = crate::model::lemma_true_witness(f[i], t);
        let l = f[i][j] as int;
        assert(is_lit(l, n));
        lemma_trail_consistent(t, n, l);
        assert(a[l] == trail_value(t, l));
        assert(a[-l] == trail_value(t, -l));
        assert(holds(m, l));
    }
    assert forall|i: int| 0 <= i < f.len() implies #[trigger] crate::search::has_true_literal(a, f[i]) by {
        assert(f[i] == cs[i].literals@);
        assert(cs[i].counts_match(t));
        let j = crate::model::lemma_true_witness(f[i], t);
        let l = f[i][j] as int;
        assert(is_lit(l, n));
        assert(a[l] == trail_value(t, l));
    }
}

/// Decides the formula: `Some` with a satisfying assignment, or `None` when
/// no assignment satisfies it.
#[verifier::loop_isolation(false)]
pub fn solve(cnf: Cnf) -> (r: Option<NVec<Assignment>>)
    requires
        cnf.num_variables < isize::MAX,
        clauses_ready(cnf.clauses@, cnf.num_variables as int),
    ensures
        r.is_some() == satisfiable(cnf.formula()),
        r matches Some(a) ==> {
            &&& a.wf()
            &&& a.half() == cnf.num_variables
            &&& is_model(model_of(a), cnf.formula())
            &&& polarity_ok(a)
            &&& true_in_every_clause(a, cnf.formula())
        },
{
    let ghost f = cnf.formula();
    let ghost n = cnf.num_variables as int;
    let mut cnf = cnf;
    let mut state = State::new(cnf.num_variables);
    if cnf.clauses.len() == 0 {
        proof {
            assert(is_model(model_of(state.assignments), f));
            let a = state.assignments;
            assert forall|v: int| 1 <= v <= a.half() implies {
                ||| (#[trigger] a[v] == Assignment::Unassigned && a[-v] == Assignment::Unassigned)
                ||| (a[v] == Assignment::True && a[-v] == Assignment::False)
                ||| (a[v] == Assignment::False && a[-v] == Assignment::True)
            } by {
                assert(a.in_range(v) && a.in_range(-v));
            }
        }
        return Some(state.assignments);
    }
    if !connect_clauses(&mut cnf.clauses, &mut state) {
        return None;
    }
    loop
        invariant
            f == formula_of(cnf.clauses@),
            n == cnf.num_variables,
            n == state.assignments.half(),
            search_inv(cnf.clauses@, state),
        decreases pow3(n as nat) - progress(state, n),
    {
        let ghost len0 = state.trail@.len() as int;
        let ghost ctl0 = state.control@;
        proof {
            lemma_weight_bounded(len0, ctl0, 0, n);
        }
        if propagate(&mut cnf.clauses, &mut state) {
            let ghost len1 = state.trail@.len() as int;
            proof {
                lemma_fixpoint_settled(cnf.clauses@, state);
            }
            if !decide(&mut cnf, &mut state) {
                proof {
                    lemma_model(cnf.clauses@, state.references, state.assignments, state.trail@);
                    lemma_polarity(cnf.clauses@, state.references, state.assignments, state.trail@);
                    assert(f == formula_of(cnf.clauses@));
                    assert(is_model(model_of(state.assignments), f));
                    assert(satisfiable(f));
                }
                return Some(state.assignments);
            }
            proof {
                let len2 = state.trail@.len() as int;
                let ctl2 = state.control@;
                lemma_trail_len(state.trail@, n);
                assert forall|r: int| 0 <= r < len0 implies #[trigger] tag(len0, ctl0, r) == tag(len2, ctl2, r) by {
                    if decided_at(ctl2, r) {
                        let i = choose|i: int| 0 <= i < ctl2.len() && ctl2[i] as int == r;
                        assert(i < ctl0.len());
                        assert(ctl0[i] == ctl2[i]);
                    }
                    if decided_at(ctl0, r) {
                        let i = choose|i: int| 0 <= i < ctl0.len() && ctl0[i] as int == r;
                        assert(ctl2[i] == ctl0[i]);
                    }
                }
                lemma_weight_lex(len0, ctl0, len2, ctl2, len0, n);
                lemma_weight_bounded(len2, ctl2, 0, n);
            }
        } else {
            let ghost t1 = state.trail@;
            if !backtrack(&mut cnf.clauses, &mut state) {
                return None;
            }
            proof {
                let len2 = state.trail@.len() as int;
                let ctl2 = state.control@;
                let l = ctl0.last() as int;
                assert(ctl0[ctl0.len() - 1] < len0);
                lemma_trail_len(state.trail@, n);
                assert forall|i: int| 0 <= i < ctl2.len() implies #[trigger] ctl2[i] < l by {
                    assert(ctl0[i] < ctl0[ctl0.len() - 1]);
                }
                assert forall|r: int| 0 <= r < l implies #[trigger] tag(len0, ctl0, r) == tag(len2, ctl2, r) by {
                    if decided_at(ctl2, r) {
                        let i = choose|i: int| 0 <= i < ctl2.len() && ctl2[i] as int == r;
                        assert(ctl0[i] == ctl2[i]);
                    }
                    if decided_at(ctl0, r) {
                        let i = choose|i: int| 0 <= i < ctl0.len() && ctl0[i] as int == r;
                        if i < ctl2.len() {
                            assert(ctl2[i] == ctl0[i]);
                        }
                    }
                }
                assert(decided_at(ctl0, l));
                if decided_at(ctl2, l) {
                    let i = choose|i: int| 0 <= i < ctl2.len() && ctl2[i] as int == l;
                }
                lemma_weight_lex(len0, ctl0, len2, ctl2, l, n);
                lemma_weight_bounded(len2, ctl2, 0, n);
            }
        }
    }
}

/// Every clause has a true literal.
pub fn check_model(clauses: &Vec<Clause>) -> (r: bool)
    ensures
        r == forall|i: int| 0 <= i < clauses@.len() ==> #[trigger] clauses@[i].num_true > 0,
{
    let mut i: usize = 0;
    while i < clauses.len()
        invariant
            i <= clauses@.len(),
            forall|k: int| 0 <= k < i ==> #[trigger] clauses@[k].num_true > 0,
        decreases clauses@.len() - i,
    {
        if clauses[i].num_true == 0 {
            return false;
        }
        i += 1;
    }
    true
}

} // verus!
