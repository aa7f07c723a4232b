//! Mathematical model of formulas, trails and truth values.
//!
//! Clause counters and the search state are described here relative to the
//! trail: a literal is true when it stands on the trail, false when its
//! complement does, and unassigned otherwise.
use vstd::prelude::*;
use vstd::set_lib::{set_int_range, lemma_int_range, lemma_len_subset};

verus! {

/// The variable of a literal.
pub open spec fn var_of(l: int) -> int {
    if l < 0 {
        -l
    } else {
        l
    }
}

/// `l` is a literal over the variables `1..=n`.
pub open spec fn is_lit(l: int, n: int) -> bool {
    l != 0 && -n <= l <= n
}

/// The literal `l` stands on the trail `t`.
pub open spec fn on(t: Seq<isize>, l: int) -> bool {
    exists|q: int| 0 <= q < t.len() && t[q] as int == l
}

/// Number of occurrences of the literal `x` in `c`.
pub open spec fn count_lit(c: Seq<isize>, x: int) -> nat
    decreases c.len(),
{
    if c.len() == 0 {
        0
    } else {
        count_lit(c.drop_last(), x) + if c.last() as int == x {
            1nat
        } else {
            0nat
        }
    }
}

/// Number of occurrences of the clause index `i` in a reference list.
pub open spec fn count_ref(r: Seq<usize>, i: int) -> nat
    decreases r.len(),
{
    if r.len() == 0 {
        0
    } else {
        count_ref(r.drop_last(), i) + if r.last() as int == i {
            1nat
        } else {
            0nat
        }
    }
}

/// Number of literal occurrences of `c` that are true under the trail `t`.
pub open spec fn n_true(c: Seq<isize>, t: Seq<isize>) -> nat
    decreases c.len(),
{
    if c.len() == 0 {
        0
    } else {
        n_true(c.drop_last(), t) + if on(t, c.last() as int) {
            1nat
        } else {
            0nat
        }
    }
}

/// Number of literal occurrences of `c` that are false under the trail `t`.
pub open spec fn n_false(c: Seq<isize>, t: Seq<isize>) -> nat
    decreases c.len(),
{
    if c.len() == 0 {
        0
    } else {
        n_false(c.drop_last(), t) + if on(t, -c.last()) {
            1nat
        } else {
            0nat
        }
    }
}

/// Sum of the literal occurrences of `c` that are not false under `t`.
pub open spec fn live_sum(c: Seq<isize>, t: Seq<isize>) -> int
    decreases c.len(),
{
    if c.len() == 0 {
        0
    } else {
        live_sum(c.drop_last(), t) + if on(t, -c.last()) {
            0
        } else {
            c.last() as int
        }
    }
}

/// Sum of all literals of `c`.
pub open spec fn lit_sum(c: Seq<isize>) -> int
    decreases c.len(),
{
    if c.len() == 0 {
        0
    } else {
        lit_sum(c.drop_last()) + c.last() as int
    }
}

/// Sum of the absolute values of the literals of `c`.
pub open spec fn abs_sum(c: Seq<isize>) -> int
    decreases c.len(),
{
    if c.len() == 0 {
        0
    } else {
        abs_sum(c.drop_last()) + var_of(c.last() as int)
    }
}

/// The value of a literal under a total model of the variables.
pub open spec fn holds(m: spec_fn(int) -> bool, l: int) -> bool {
    if l > 0 {
        m(l)
    } else {
        !m(-l)
    }
}

/// Some literal of `c` holds under `m`.
pub open spec fn clause_holds(m: spec_fn(int) -> bool, c: Seq<isize>) -> bool {
    exists|j: int| 0 <= j < c.len() && #[trigger] holds(m, c[j] as int)
}

/// Every clause of `f` holds under `m`.
pub open spec fn is_model(m: spec_fn(int) -> bool, f: Seq<Seq<isize>>) -> bool {
    forall|i: int| 0 <= i < f.len() ==> #[trigger] clause_holds(m, f[i])
}

/// Some model satisfies every clause of `f`.
pub open spec fn satisfiable(f: Seq<Seq<isize>>) -> bool {
    exists|m: spec_fn(int) -> bool| #[trigger] is_model(m, f)
}

/// Every literal of `f` ranges over the variables `1..=n`.
pub open spec fn lits_in_range(f: Seq<Seq<isize>>, n: int) -> bool {
    forall|i: int, j: int|
        0 <= i < f.len() && 0 <= j < f[i].len() ==> is_lit(#[trigger] f[i][j] as int, n)
}

/// The trail holds literals over `1..=n`, no variable twice.
pub open spec fn trail_ok(t: Seq<isize>, n: int) -> bool {
    &&& forall|q: int| 0 <= q < t.len() ==> is_lit(#[trigger] t[q] as int, n)
    &&& forall|p: int, q: int|
        0 <= p < q < t.len() ==> var_of(#[trigger] t[p] as int) != var_of(#[trigger] t[q] as int)
}

/// `l` is neither true nor false under the trail.
pub open spec fn free(t: Seq<isize>, l: int) -> bool {
    !on(t, l) && !on(t, -l)
}

/// The clause is unsatisfied and has at most one literal that is not false,
/// with at least one false literal.
pub open spec fn pending(c: Seq<isize>, t: Seq<isize>) -> bool {
    &&& n_true(c, t) == 0
    &&& n_false(c, t) >= 1
    &&& n_false(c, t) + 1 >= c.len()
}

/// No clause of `f` is pending under `t`.
pub open spec fn fixpoint(f: Seq<Seq<isize>>, t: Seq<isize>) -> bool {
    forall|i: int| 0 <= i < f.len() ==> !#[trigger] pending(f[i], t)
}

// ---------------------------------------------------------------------------
// Lemmas on the trail
// ---------------------------------------------------------------------------

pub proof fn lemma_on_push(t: Seq<isize>, x: isize, y: int)
    ensures
        on(t.push(x), y) <==> (on(t, y) || y == x as int),
{
    if on(t, y) {
        let q = choose|q: int| 0 <= q < t.len() && t[q] as int == y;
        assert(t.push(x)[q] as int == y);
    }
    if y == x as int {
        assert(t.push(x)[t.len() as int] as int == y);
    }
    if on(t.push(x), y) {
        let q = choose|q: int| 0 <= q < t.push(x).len() && t.push(x)[q] as int == y;
        if q < t.len() {
            assert(t[q] as int == y);
        }
    }
}

pub proof fn lemma_on_take(t: Seq<isize>, k: int, y: int)
    requires
        0 <= k <= t.len(),
        on(t.take(k), y),
    ensures
        on(t, y),
{
    let q = choose|q: int| 0 <= q < t.take(k).len() && t.take(k)[q] as int == y;
    assert(t[q] as int == y);
}

/// A well-formed trail never holds a literal together with its complement.
pub proof fn lemma_trail_consistent(t: Seq<isize>, n: int, l: int)
    requires
        trail_ok(t, n),
        on(t, l),
    ensures
        !on(t, -l),
{
    if on(t, -l) {
        let p = choose|q: int| 0 <= q < t.len() && t[q] as int == l;
        let q = choose|q: int| 0 <= q < t.len() && t[q] as int == -l;
        assert(t[p] != 0isize);
        assert(p != q);
        if p < q {
            assert(var_of(t[p] as int) != var_of(t[q] as int));
        } else {
            assert(var_of(t[q] as int) != var_of(t[p] as int));
        }
    }
}

/// Pushing a free literal keeps the trail well formed.
pub proof fn lemma_trail_push(t: Seq<isize>, n: int, x: isize)
    requires
        trail_ok(t, n),
        is_lit(x as int, n),
        free(t, x as int),
    ensures
        trail_ok(t.push(x), n),
{
    let t2 = t.push(x);
    assert forall|p: int, q: int| 0 <= p < q < t2.len() implies var_of(#[trigger] t2[p] as int)
        != var_of(#[trigger] t2[q] as int) by {
        if q == t.len() {
            assert(t2[p] == t[p]);
            if var_of(t[p] as int) == var_of(x as int) {
                if t[p] as int == x as int {
                    assert(on(t, x as int));
                } else {
                    assert(t[p] as int == -x);
                    assert(on(t, -x));
                }
            }
        } else {
            assert(t2[p] == t[p] && t2[q] == t[q]);
        }
    }
}

/// A prefix of a well-formed trail is well formed.
pub proof fn lemma_trail_take(t: Seq<isize>, n: int, k: int)
    requires
        trail_ok(t, n),
        0 <= k <= t.len(),
    ensures
        trail_ok(t.take(k), n),
{
    let s = t.take(k);
    assert forall|q: int| 0 <= q < s.len() implies is_lit(#[trigger] s[q] as int, n) by {
        assert(s[q] == t[q]);
    }
    assert forall|p: int, q: int| 0 <= p < q < s.len() implies var_of(#[trigger] s[p] as int)
        != var_of(#[trigger] s[q] as int) by {
        assert(s[p] == t[p] && s[q] == t[q]);
    }
}

/// The last literal of a well-formed trail is free in the rest of it.
pub proof fn lemma_trail_last(t: Seq<isize>, n: int, l: isize)
    requires
        trail_ok(t.push(l), n),
    ensures
        trail_ok(t, n),
        free(t, l as int),
        is_lit(l as int, n),
{
    let t2 = t.push(l);
    assert(t2.take(t.len() as int) =~= t);
    lemma_trail_take(t2, n, t.len() as int);
    assert(is_lit(t2[t.len() as int] as int, n));
    if on(t, l as int) || on(t, -l) {
        let q = choose|q: int| 0 <= q < t.len() && (t[q] as int == l as int || t[q] as int == -l);
        assert(t2[q] == t[q]);
        assert(var_of(t2[q] as int) != var_of(t2[t.len() as int] as int));
    }
}

/// A well-formed trail is no longer than the number of variables.
pub proof fn lemma_trail_len(t: Seq<isize>, n: int)
    requires
        trail_ok(t, n),
        n >= 0,
    ensures
        t.len() <= n,
{
    let vars = t.map_values(|l: isize| var_of(l as int));
    assert(vars.no_duplicates()) by {
        assert forall|p: int, q: int| 0 <= p < vars.len() && 0 <= q < vars.len() && p != q implies vars[p]
            != vars[q] by {
            if p < q {
                assert(var_of(t[p] as int) != var_of(t[q] as int));
            } else {
                assert(var_of(t[q] as int) != var_of(t[p] as int));
            }
        }
    }
    vars.unique_seq_to_set();
    lemma_int_range(1, n + 1);
    assert(vars.to_set().subset_of(set_int_range(1, n + 1))) by {
        assert forall|v: int| vars.to_set().contains(v) implies set_int_range(1, n + 1).contains(v) by {
            let q = choose|q: int| 0 <= q < vars.len() && vars[q] == v;
            assert(is_lit(t[q] as int, n));
        }
    }
    lemma_len_subset(vars.to_set(), set_int_range(1, n + 1));
}

// ---------------------------------------------------------------------------
// Lemmas on the counting functions
// ---------------------------------------------------------------------------

/// How the counts of a clause change when a free literal is pushed.
pub proof fn lemma_counts_push(c: Seq<isize>, t: Seq<isize>, x: isize)
    requires
        x != 0,
        free(t, x as int),
    ensures
        n_true(c, t.push(x)) == n_true(c, t) + count_lit(c, x as int),
        n_false(c, t.push(x)) == n_false(c, t) + count_lit(c, -x),
        live_sum(c, t.push(x)) == live_sum(c, t) + x * count_lit(c, -x),
    decreases c.len(),
{
    if c.len() > 0 {
        lemma_counts_push(c.drop_last(), t, x);
        lemma_on_push(t, x, c.last() as int);
        lemma_on_push(t, x, -c.last());
        let d = c.drop_last();
        if c.last() as int == -x {
            assert(x * count_lit(c, -x) == x * count_lit(d, -x) + x) by (nonlinear_arith)
                requires
                    count_lit(c, -x) == count_lit(d, -x) + 1,
            ;
        } else {
            assert(x * count_lit(c, -x) == x * count_lit(d, -x));
        }
    } else {
        assert(x * count_lit(c, -x) == 0) by (nonlinear_arith)
            requires
                count_lit(c, -x) == 0,
        ;
    }
}

pub proof fn lemma_counts_bounded(c: Seq<isize>, t: Seq<isize>)
    ensures
        n_true(c, t) <= c.len(),
        n_false(c, t) <= c.len(),
        -abs_sum(c) <= live_sum(c, t) <= abs_sum(c),
        -abs_sum(c) <= lit_sum(c) <= abs_sum(c),
        abs_sum(c) >= 0,
    decreases c.len(),
{
    if c.len() > 0 {
        lemma_counts_bounded(c.drop_last(), t);
    }
}

pub proof fn lemma_count_lit_bounded(c: Seq<isize>, x: int)
    ensures
        count_lit(c, x) <= c.len(),
    decreases c.len(),
{
    if c.len() > 0 {
        lemma_count_lit_bounded(c.drop_last(), x);
    }
}

/// Under the empty trail every literal is unassigned.
pub proof fn lemma_counts_empty(c: Seq<isize>)
    ensures
        n_true(c, Seq::empty()) == 0,
        n_false(c, Seq::empty()) == 0,
        live_sum(c, Seq::empty()) == lit_sum(c),
    decreases c.len(),
{
    if c.len() > 0 {
        lemma_counts_empty(c.drop_last());
    }
}

/// Some literal of `c` is true when the true count is positive.
pub proof fn lemma_true_witness(c: Seq<isize>, t: Seq<isize>) -> (j: int)
    requires
        n_true(c, t) >= 1,
    ensures
        0 <= j < c.len(),
        on(t, c[j] as int),
    decreases c.len(),
{
    if on(t, c.last() as int) {
        c.len() - 1
    } else {
        let j = lemma_true_witness(c.drop_last(), t);
        assert(c.drop_last()[j] == c[j]);
        j
    }
}

/// Some literal of `c` is false when the false count is positive.
pub proof fn lemma_false_witness(c: Seq<isize>, t: Seq<isize>) -> (j: int)
    requires
        n_false(c, t) >= 1,
    ensures
        0 <= j < c.len(),
        on(t, -c[j]),
    decreases c.len(),
{
    if on(t, -c.last()) {
        c.len() - 1
    } else {
        let j = lemma_false_witness(c.drop_last(), t);
        assert(c.drop_last()[j] == c[j]);
        j
    }
}

/// When all literals of `c` are false their live sum is zero.
pub proof fn lemma_all_false(c: Seq<isize>, t: Seq<isize>)
    requires
        n_false(c, t) == c.len(),
    ensures
        forall|j: int| 0 <= j < c.len() ==> on(t, -c[j]),
        live_sum(c, t) == 0,
    decreases c.len(),
{
    if c.len() > 0 {
        lemma_counts_bounded(c.drop_last(), t);
        lemma_all_false(c.drop_last(), t);
        assert forall|j: int| 0 <= j < c.len() implies on(t, -c[j]) by {
            if j < c.len() - 1 {
                assert(c.drop_last()[j] == c[j]);
            }
        }
    }
}

/// A clause with no true literal and all but one literal false forces its
/// remaining literal, which is its live sum.
pub proof fn lemma_forcing(c: Seq<isize>, t: Seq<isize>, n: int) -> (j: int)
    requires
        trail_ok(t, n),
        n_true(c, t) == 0,
        n_false(c, t) + 1 == c.len(),
    ensures
        0 <= j < c.len(),
        c[j] as int == live_sum(c, t),
        free(t, c[j] as int),
        forall|k: int| 0 <= k < c.len() && k != j ==> on(t, -c[k]),
    decreases c.len(),
{
    let d = c.drop_last();
    lemma_counts_bounded(d, t);
    if on(t, -c.last()) {
        let j = lemma_forcing(d, t, n);
        assert(d[j] == c[j]);
        assert forall|k: int| 0 <= k < c.len() && k != j implies on(t, -c[k]) by {
            if k < c.len() - 1 {
                assert(d[k] == c[k]);
            }
        }
        j
    } else {
        lemma_all_false(d, t);
        assert forall|k: int| 0 <= k < c.len() && k != c.len() - 1 implies on(t, -c[k]) by {
            assert(d[k] == c[k]);
        }
        c.len() - 1
    }
}

/// A clause whose literals are all assigned has as many true and false
/// occurrences together as literals.
pub proof fn lemma_all_assigned(c: Seq<isize>, t: Seq<isize>)
    requires
        forall|j: int| 0 <= j < c.len() ==> on(t, c[j] as int) || on(t, -c[j]),
    ensures
        n_true(c, t) + n_false(c, t) >= c.len(),
    decreases c.len(),
{
    if c.len() > 0 {
        let d = c.drop_last();
        assert forall|j: int| 0 <= j < d.len() implies on(t, d[j] as int) || on(t, -d[j]) by {
            assert(d[j] == c[j]);
        }
        lemma_all_assigned(d, t);
    }
}

/// A clause that is not pending under `t` is not pending after a push,
/// unless it holds the complement of the pushed literal.
pub proof fn lemma_pending_push(c: Seq<isize>, t: Seq<isize>, x: isize)
    requires
        x != 0,
        free(t, x as int),
        !pending(c, t),
        pending(c, t.push(x)),
    ensures
        exists|j: int| 0 <= j < c.len() && c[j] as int == -x,
{
    lemma_counts_push(c, t, x);
    if count_lit(c, -x) == 0 {
        assert(false);
    }
    lemma_count_witness(c, -x);
}

/// Under a model a literal and its complement take opposite values.
pub proof fn lemma_holds_neg(m: spec_fn(int) -> bool, l: int)
    requires
        l != 0,
    ensures
        holds(m, -l) == !holds(m, l),
{
}

pub proof fn lemma_count_lit_pos(c: Seq<isize>, j: int)
    requires
        0 <= j < c.len(),
    ensures
        count_lit(c, c[j] as int) >= 1,
    decreases c.len(),
{
    if j < c.len() - 1 {
        assert(c.drop_last()[j] == c[j]);
        lemma_count_lit_pos(c.drop_last(), j);
    }
}

pub proof fn lemma_count_ref_witness(r: Seq<usize>, i: int) -> (k: int)
    requires
        count_ref(r, i) >= 1,
    ensures
        0 <= k < r.len(),
        r[k] as int == i,
    decreases r.len(),
{
    if r.last() as int == i {
        r.len() - 1
    } else {
        let k = lemma_count_ref_witness(r.drop_last(), i);
        assert(r.drop_last()[k] == r[k]);
        k
    }
}

pub proof fn lemma_count_ref_pos(r: Seq<usize>, k: int)
    requires
        0 <= k < r.len(),
    ensures
        count_ref(r, r[k] as int) >= 1,
    decreases r.len(),
{
    if k < r.len() - 1 {
        assert(r.drop_last()[k] == r[k]);
        lemma_count_ref_pos(r.drop_last(), k);
    }
}

pub proof fn lemma_count_witness(c: Seq<isize>, x: int)
    requires
        count_lit(c, x) >= 1,
    ensures
        exists|j: int| 0 <= j < c.len() && c[j] as int == x,
    decreases c.len(),
{
    if c.last() as int != x {
        lemma_count_witness(c.drop_last(), x);
        let j = choose|j: int| 0 <= j < c.drop_last().len() && c.drop_last()[j] as int == x;
        assert(c[j] as int == x);
    } else {
        assert(c[c.len() - 1] as int == x);
    }
}

} // verus!
