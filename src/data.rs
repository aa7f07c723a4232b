//! The formula, its clauses and the search state.
use vstd::prelude::*;
use crate::model::{abs_sum, lit_sum, live_sum, n_false, n_true, lemma_counts_bounded, lemma_counts_empty};
use crate::nvec::NVec;

verus! {

/// A clause: a disjunction of literals with live counters.
#[derive(Debug)]
pub struct Clause {
    pub size: usize,
    pub literals: Vec<isize>,
    /// number of literals currently true
    pub num_true: usize,
    /// number of literals currently false
    pub num_false: usize,
    /// sum of the literals that are not false
    pub sum: isize,
}

/// A formula in conjunctive normal form.
#[derive(Debug)]
pub struct Cnf {
    pub filename: String,
    pub clauses: Vec<Clause>,
    pub num_clauses: usize,
    pub num_variables: usize,
}

/// The value of a literal.
#[derive(Debug, Clone, Copy, PartialEq, Eq, Structural)]
pub enum Assignment {
    Unassigned,
    True,
    False,
}

impl Default for Assignment {
    fn default() -> (r: Self)
        ensures
            r == Assignment::Unassigned,
    {
        Assignment::Unassigned
    }
}

/// What the counters of a clause say about it.
#[derive(Debug, Clone, Copy, PartialEq, Eq, Structural)]
pub enum Status {
    /// nothing can be said about the clause
    Unresolved,
    /// some literal is true
    Satisfied,
    /// every literal is false
    Falsified,
    /// exactly one literal is not false and none is true: that literal
    Forcing(isize),
}

/// Counters of the search.
#[derive(Debug)]
pub struct Stats {
    /// clauses connected
    pub added: usize,
    /// conflicts met
    pub conflicts: usize,
    /// decisions taken
    pub decisions: usize,
    /// trail literals propagated
    pub propagations: usize,
}

impl Default for Stats {
    fn default() -> (r: Self)
        ensures
            r.added == 0 && r.conflicts == 0 && r.decisions == 0 && r.propagations == 0,
    {
        Stats { added: 0, conflicts: 0, decisions: 0, propagations: 0 }
    }
}

/// The state of the search.
pub struct State {
    /// value of every literal
    pub assignments: NVec<Assignment>,
    /// for every literal, the indices of the clauses it occurs in, once per occurrence
    pub references: NVec<Vec<usize>>,
    /// number of open decisions
    pub level: usize,
    /// length of the trail prefix already propagated
    pub propagated: usize,
    /// trail length at each open decision
    pub control: Vec<usize>,
    /// the true literals, in the order they were assigned
    pub trail: Vec<isize>,
    pub stats: Stats,
}

impl Clause {
    /// The counters describe the clause under the trail `t`.
    pub open spec fn counts_match(&self, t: Seq<isize>) -> bool {
        &&& self.size == self.literals@.len()
        &&& self.num_true == n_true(self.literals@, t)
        &&& self.num_false == n_false(self.literals@, t)
        &&& self.sum == live_sum(self.literals@, t)
    }

    /// Every partial sum of the literals fits the counter.
    pub open spec fn fits(&self) -> bool {
        abs_sum(self.literals@) <= isize::MAX
    }

    /// Constructs a clause with no literal assigned.
    pub fn new(literals: Vec<isize>) -> (r: Clause)
        requires
            abs_sum(literals@) <= isize::MAX,
        ensures
            r.literals@ == literals@,
            r.size == literals@.len(),
            r.num_true == 0,
            r.num_false == 0,
            r.sum == lit_sum(literals@),
            r.counts_match(Seq::empty()),
    {
        let mut sum: isize = 0;
        let mut k: usize = 0;
        while k < literals.len()
            invariant
                k <= literals@.len(),
                abs_sum(literals@) <= isize::MAX,
                sum == lit_sum(literals@.take(k as int)),
            decreases literals@.len() - k,
        {
            proof {
                let s = literals@;
                assert(s.take(k + 1).drop_last() =~= s.take(k as int));
                lemma_abs_sum_prefix(s, k + 1);
                lemma_counts_bounded(s.take(k + 1), Seq::empty());
            }
            sum = sum + literals[k];
            k += 1;
        }
        proof {
            assert(literals@.take(k as int) =~= literals@);
            lemma_counts_empty(literals@);
        }
        Clause { size: literals.len(), literals, num_true: 0, num_false: 0, sum }
    }
}

pub proof fn lemma_abs_sum_prefix(s: Seq<isize>, k: int)
    requires
        0 <= k <= s.len(),
    ensures
        abs_sum(s.take(k)) <= abs_sum(s),
    decreases s.len(),
{
    if k < s.len() {
        assert(s.drop_last().take(k) =~= s.take(k));
        lemma_abs_sum_prefix(s.drop_last(), k);
    } else {
        assert(s.take(k) =~= s);
    }
}

impl Cnf {
    /// The literals of every clause.
    pub open spec fn formula(&self) -> Seq<Seq<isize>> {
        formula_of(self.clauses@)
    }

    /// Constructs a formula.
    pub fn new(filename: String, clauses: Vec<Clause>, num_variables: usize, num_clauses: usize) -> (r: Cnf)
        ensures
            r.filename@ == filename@,
            r.clauses@ == clauses@,
            r.num_variables == num_variables,
            r.num_clauses == num_clauses,
    {
        Cnf { filename, clauses, num_variables, num_clauses }
    }
}

/// The literals of every clause.
pub open spec fn formula_of(cs: Seq<Clause>) -> Seq<Seq<isize>> {
    cs.map_values(|c: Clause| c.literals@)
}

/// The literal of every variable `1..=n` under the assignment, in order:
/// `v` when it is true or unassigned, `-v` when it is false.
pub fn witness(assignments: &NVec<Assignment>) -> (r: Vec<isize>)
    requires
        assignments.wf(),
    ensures
        r@.len() == assignments.half(),
        forall|i: int|
            0 <= i < r@.len() ==> #[trigger] r@[i] == if assignments[i + 1] == Assignment::False {
                -(i + 1)
            } else {
                i + 1
            },
{
    let n = assignments.len();
    let mut r: Vec<isize> = Vec::new();
    let mut v: usize = 1;
    while v <= n
        invariant
            assignments.wf(),
            n == assignments.half(),
            1 <= v <= n + 1,
            r@.len() == v - 1,
            forall|i: int|
                0 <= i < r@.len() ==> #[trigger] r@[i] == if assignments[i + 1] == Assignment::False {
                    -(i + 1)
                } else {
                    i + 1
                },
        decreases n + 1 - v,
    {
        let l = v as isize;
        match assignments.index(l) {
            Assignment::False => r.push(-l),
            _ => r.push(l),
        }
        v += 1;
    }
    r
}

impl State {
    /// Constructs the state for `num_variables` variables: nothing assigned,
    /// no references, level 0.
    pub fn new(num_variables: usize) -> (r: State)
        requires
            num_variables < isize::MAX as usize,
        ensures
            r.assignments.wf(),
            r.assignments.half() == num_variables,
            forall|l: int| r.assignments.in_range(l) ==> r.assignments[l] == Assignment::Unassigned,
            r.references.wf(),
            r.references.half() == num_variables,
            forall|l: int| r.references.in_range(l) ==> r.references[l]@.len() == 0,
            r.level == 0,
            r.propagated == 0,
            r.control@.len() == 0,
            r.trail@.len() == 0,
            r.stats.added == 0 && r.stats.conflicts == 0 && r.stats.decisions == 0
                && r.stats.propagations == 0,
    {
        let assignments: NVec<Assignment> = NVec::new(num_variables);
        let references: NVec<Vec<usize>> = NVec::new(num_variables);
        State {
            assignments,
            references,
            level: 0,
            propagated: 0,
            control: Vec::new(),
            trail: Vec::new(),
            stats: Stats::default(),
        }
    }
}

} // verus!
