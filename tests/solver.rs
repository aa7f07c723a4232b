use babysat::data::{Assignment, Clause, Cnf, State, Status};
use babysat::dpll::{assign, backtrack, check_model, connect_clauses, decide, propagate, solve, status, unassign};
use babysat::nvec::NVec;

fn formula(num_variables: usize, clauses: &[&[isize]]) -> Cnf {
    let clauses: Vec<Clause> = clauses.iter().map(|c| Clause::new(c.to_vec())).collect();
    let n = clauses.len();
    Cnf::new(String::from("test.cnf"), clauses, num_variables, n)
}

fn value(a: &NVec<Assignment>, l: isize) -> bool {
    match a.index(l) {
        Assignment::False => false,
        _ => true,
    }
}

/// Checks the witness against the clauses by scanning them, not the counters.
fn satisfies(a: &NVec<Assignment>, clauses: &[&[isize]]) -> bool {
    clauses.iter().all(|c| c.iter().any(|&l| if l > 0 { value(a, l) } else { !value(a, -l) }))
}

fn run(num_variables: usize, clauses: &[&[isize]]) -> Option<NVec<Assignment>> {
    let r = solve(formula(num_variables, clauses));
    if let Some(a) = &r {
        assert_eq!(a.len(), num_variables);
        assert!(satisfies(a, clauses));
    }
    r
}

#[test]
fn empty_formula_is_sat() {
    assert!(run(0, &[]).is_some());
    assert!(run(5, &[]).is_some());
}

#[test]
fn empty_clause_is_unsat() {
    assert!(run(2, &[&[1, 2], &[]]).is_none());
    assert!(run(1, &[&[]]).is_none());
}

#[test]
fn single_unit_clause() {
    let a = run(1, &[&[1]]).unwrap();
    assert_eq!(*a.index(1), Assignment::True);
    assert_eq!(*a.index(-1), Assignment::False);
}

#[test]
fn contradictory_units() {
    assert!(run(1, &[&[1], &[-1]]).is_none());
    assert!(run(2, &[&[-2], &[1, 2], &[2]]).is_none());
}

#[test]
fn scenario_one_unit() {
    let a = run(1, &[&[1]]).unwrap();
    assert!(value(&a, 1));
}

#[test]
fn scenario_two_units_unsat() {
    assert!(run(1, &[&[1], &[-1]]).is_none());
}

#[test]
fn scenario_three_variables_sat() {
    assert!(run(3, &[&[1, 2], &[-1, 3], &[-2, -3]]).is_some());
}

#[test]
fn scenario_all_four_binary_clauses_unsat() {
    assert!(run(3, &[&[1, 2], &[-1, 2], &[1, -2], &[-1, -2]]).is_none());
}

#[test]
fn scenario_chain_unsat() {
    assert!(run(4, &[&[1, 2], &[-1, 3], &[-2, 3], &[-3, 4], &[-3, -4], &[-1, -2]]).is_none());
}

#[test]
fn pigeonhole_three_into_two_unsat() {
    // x(i, j): pigeon i sits in hole j, numbered 2 * (i - 1) + j
    let x = |i: isize, j: isize| 2 * (i - 1) + j;
    let mut clauses: Vec<Vec<isize>> = Vec::new();
    for i in 1..=3 {
        clauses.push(vec![x(i, 1), x(i, 2)]);
    }
    for j in 1..=2 {
        for i in 1..=3 {
            for k in (i + 1)..=3 {
                clauses.push(vec![-x(i, j), -x(k, j)]);
            }
        }
    }
    let refs: Vec<&[isize]> = clauses.iter().map(|c| c.as_slice()).collect();
    assert!(run(6, &refs).is_none());
}

#[test]
fn pigeonhole_two_into_two_sat() {
    let clauses: &[&[isize]] = &[&[1, 2], &[3, 4], &[-1, -3], &[-2, -4]];
    assert!(run(4, clauses).is_some());
}

#[test]
fn duplicate_and_tautological_literals() {
    assert!(run(2, &[&[1, 1, -2], &[2, 2], &[-1, -1]]).is_none());
    assert!(run(2, &[&[1, -1], &[2, -2, 2]]).is_some());
    assert!(run(2, &[&[-1, -1], &[-2, -1]]).is_some());
}

#[test]
fn satisfiable_needs_negative_choices() {
    let clauses: &[&[isize]] = &[&[-1, -2], &[-2, -3], &[-1, -3], &[1, 2, 3]];
    assert!(run(3, clauses).is_some());
    let clauses: &[&[isize]] = &[&[-1, -2, -3], &[-1, 2], &[-2, 3], &[1, 3]];
    assert!(run(3, clauses).is_some());
}

#[test]
fn clause_new_counters() {
    let c = Clause::new(vec![3, -1, 2]);
    assert_eq!(c.size, 3);
    assert_eq!(c.num_true, 0);
    assert_eq!(c.num_false, 0);
    assert_eq!(c.sum, 4);
    assert_eq!(c.literals, vec![3, -1, 2]);
}

#[test]
fn state_new_is_empty() {
    let s = State::new(3);
    assert_eq!(s.level, 0);
    assert_eq!(s.propagated, 0);
    assert!(s.trail.is_empty());
    assert!(s.control.is_empty());
    for l in [-3isize, -2, -1, 1, 2, 3] {
        assert_eq!(*s.assignments.index(l), Assignment::Unassigned);
        assert!(s.references.index(l).is_empty());
    }
}

#[test]
fn nvec_index_by_literal() {
    let mut v: NVec<usize> = NVec::new(2);
    assert_eq!(v.len(), 2);
    *v.index_mut(-2) = 7;
    *v.index_mut(1) = 5;
    assert_eq!(*v.index(-2), 7);
    assert_eq!(*v.index(1), 5);
    assert_eq!(*v.index(2), 0);
    assert_eq!(*v.index(-1), 0);
}

#[test]
fn status_rules() {
    let mut c = Clause::new(vec![1, 2, 3]);
    assert_eq!(status(&c), Status::Unresolved);
    c.num_false = 2;
    c.sum = 3;
    assert_eq!(status(&c), Status::Forcing(3));
    c.num_false = 3;
    assert_eq!(status(&c), Status::Falsified);
    c.num_true = 1;
    assert_eq!(status(&c), Status::Satisfied);
    assert_eq!(status(&Clause::new(vec![])), Status::Falsified);
}

#[test]
fn assign_then_unassign_restores_counters() {
    let mut cnf = formula(2, &[&[1, -2], &[-1, -2], &[2, 1]]);
    let mut state = State::new(2);
    assert!(connect_clauses(&mut cnf.clauses, &mut state));
    assign(-2, &mut cnf.clauses, &state.references, &mut state.assignments, &mut state.trail);
    assert_eq!(state.trail, vec![-2]);
    assert_eq!(*state.assignments.index(-2), Assignment::True);
    assert_eq!(*state.assignments.index(2), Assignment::False);
    assert_eq!((cnf.clauses[0].num_true, cnf.clauses[0].num_false, cnf.clauses[0].sum), (1, 0, -1));
    assert_eq!((cnf.clauses[2].num_true, cnf.clauses[2].num_false, cnf.clauses[2].sum), (0, 1, 1));
    unassign(-2, &mut cnf.clauses, &state.references, &mut state.assignments);
    for c in &cnf.clauses {
        assert_eq!((c.num_true, c.num_false), (0, 0));
        assert_eq!(c.sum, c.literals.iter().sum::<isize>());
    }
    assert_eq!(*state.assignments.index(2), Assignment::Unassigned);
    assert_eq!(*state.assignments.index(-2), Assignment::Unassigned);
}

#[test]
fn connect_assigns_units_at_root() {
    let mut cnf = formula(3, &[&[2], &[1, 2, 3], &[-3]]);
    let mut state = State::new(3);
    assert!(connect_clauses(&mut cnf.clauses, &mut state));
    assert_eq!(state.trail, vec![2, -3]);
    assert_eq!(state.level, 0);
    assert_eq!(state.references.index(2).clone(), vec![0, 1]);
    assert_eq!(state.references.index(-3).clone(), vec![2]);
}

#[test]
fn connect_rejects_contradiction_and_empty() {
    let mut cnf = formula(1, &[&[1], &[-1]]);
    let mut state = State::new(1);
    assert!(!connect_clauses(&mut cnf.clauses, &mut state));
    let mut cnf = formula(1, &[&[1], &[]]);
    let mut state = State::new(1);
    assert!(!connect_clauses(&mut cnf.clauses, &mut state));
}

#[test]
fn propagate_forces_and_finds_conflict() {
    let mut cnf = formula(3, &[&[1], &[-1, 2], &[-2, 3]]);
    let mut state = State::new(3);
    assert!(connect_clauses(&mut cnf.clauses, &mut state));
    assert!(propagate(&mut cnf.clauses, &mut state));
    assert_eq!(state.trail, vec![1, 2, 3]);
    assert_eq!(state.propagated, 3);
    assert!(check_model(&cnf.clauses));

    let mut cnf = formula(2, &[&[1], &[-1, 2], &[-1, -2]]);
    let mut state = State::new(2);
    assert!(connect_clauses(&mut cnf.clauses, &mut state));
    assert!(!propagate(&mut cnf.clauses, &mut state));
    assert!(!backtrack(&mut cnf.clauses, &mut state));
}

#[test]
fn decide_picks_most_frequent_literal() {
    let mut cnf = formula(3, &[&[1, -2], &[-2, 3], &[-2, -3], &[1, 3]]);
    let mut state = State::new(3);
    assert!(connect_clauses(&mut cnf.clauses, &mut state));
    assert!(propagate(&mut cnf.clauses, &mut state));
    assert!(decide(&mut cnf, &mut state));
    assert_eq!(state.trail, vec![-2]);
    assert_eq!(state.control, vec![0]);
    assert_eq!(state.level, 1);
    assert!(!check_model(&cnf.clauses));
}

#[test]
fn decide_reports_saturation() {
    let mut cnf = formula(2, &[&[1], &[1, 2]]);
    let mut state = State::new(2);
    assert!(connect_clauses(&mut cnf.clauses, &mut state));
    assert!(propagate(&mut cnf.clauses, &mut state));
    assert!(!decide(&mut cnf, &mut state));
    assert!(check_model(&cnf.clauses));
}

#[test]
fn backtrack_flips_the_last_decision() {
    let mut cnf = formula(5, &[&[1, 2], &[1, 3], &[1, 4], &[-1, 5], &[-1, -5]]);
    let mut state = State::new(5);
    assert!(connect_clauses(&mut cnf.clauses, &mut state));
    assert!(propagate(&mut cnf.clauses, &mut state));
    assert!(decide(&mut cnf, &mut state));
    assert_eq!(state.trail, vec![1]);
    assert!(!propagate(&mut cnf.clauses, &mut state));
    assert_eq!(state.trail, vec![1, 5]);
    assert!(backtrack(&mut cnf.clauses, &mut state));
    assert_eq!(state.trail, vec![-1]);
    assert_eq!(state.level, 0);
    assert!(state.control.is_empty());
    assert_eq!(state.propagated, 0);
    assert_eq!(*state.assignments.index(5), Assignment::Unassigned);
    assert_eq!(*state.assignments.index(1), Assignment::False);
    for c in &cnf.clauses[3..] {
        assert_eq!((c.num_true, c.num_false), (1, 0));
    }
    assert!(propagate(&mut cnf.clauses, &mut state));
    assert_eq!(state.trail, vec![-1, 2, 3, 4]);
    assert!(check_model(&cnf.clauses));
}

#[test]
fn full_backtrack_restores_initial_counters() {
    let mut cnf = formula(3, &[&[1, 2, 3], &[-1, -2], &[2, -3]]);
    let mut state = State::new(3);
    assert!(connect_clauses(&mut cnf.clauses, &mut state));
    assign(1, &mut cnf.clauses, &state.references, &mut state.assignments, &mut state.trail);
    assign(-2, &mut cnf.clauses, &state.references, &mut state.assignments, &mut state.trail);
    assign(3, &mut cnf.clauses, &state.references, &mut state.assignments, &mut state.trail);
    while let Some(l) = state.trail.pop() {
        unassign(l, &mut cnf.clauses, &state.references, &mut state.assignments);
    }
    for c in &cnf.clauses {
        assert_eq!((c.num_true, c.num_false), (0, 0));
        assert_eq!(c.sum, c.literals.iter().sum::<isize>());
    }
    for l in [-3isize, -2, -1, 1, 2, 3] {
        assert_eq!(*state.assignments.index(l), Assignment::Unassigned);
    }
}

#[test]
fn counters_match_assignment_during_search() {
    let mut cnf = formula(3, &[&[1, -2, 3], &[-1, 2], &[2, 3, 3]]);
    let mut state = State::new(3);
    assert!(connect_clauses(&mut cnf.clauses, &mut state));
    assert!(propagate(&mut cnf.clauses, &mut state));
    assert!(decide(&mut cnf, &mut state));
    assert!(propagate(&mut cnf.clauses, &mut state));
    for v in 1..=3isize {
        let pair = (*state.assignments.index(v), *state.assignments.index(-v));
        assert!(matches!(
            pair,
            (Assignment::Unassigned, Assignment::Unassigned)
                | (Assignment::True, Assignment::False)
                | (Assignment::False, Assignment::True)
        ));
    }
    for c in &cnf.clauses {
        let t = c.literals.iter().filter(|&&l| *state.assignments.index(l) == Assignment::True).count();
        let f = c.literals.iter().filter(|&&l| *state.assignments.index(l) == Assignment::False).count();
        assert_eq!((c.num_true, c.num_false), (t, f));
        if t == 0 {
            let u: isize = c.literals.iter().filter(|&&l| *state.assignments.index(l) == Assignment::Unassigned).sum();
            assert_eq!(c.sum, u);
        }
        assert!(!matches!(status(c), Status::Forcing(_) | Status::Falsified));
    }
    for w in state.control.windows(2) {
        assert!(w[0] < w[1]);
    }
    assert_eq!(state.control.len(), state.level);
    for &l in &state.trail {
        assert_eq!(*state.assignments.index(l), Assignment::True);
    }
}

#[test]
fn connect_lists_references_in_clause_order() {
    let mut cnf = formula(2, &[&[1, 2, 1], &[-2], &[1], &[1], &[2, -1]]);
    let mut state = State::new(2);
    assert!(connect_clauses(&mut cnf.clauses, &mut state));
    assert_eq!(state.references.index(1).clone(), vec![0, 0, 2, 3]);
    assert_eq!(state.references.index(2).clone(), vec![0, 4]);
    assert_eq!(state.references.index(-2).clone(), vec![1]);
    assert_eq!(state.references.index(-1).clone(), vec![4]);
    // each unit literal once, in clause order
    assert_eq!(state.trail, vec![-2, 1]);
    assert!(state.control.is_empty());
}

#[test]
fn connect_builds_references_before_failing() {
    let mut cnf = formula(1, &[&[1], &[-1], &[1, -1]]);
    let mut state = State::new(1);
    assert!(!connect_clauses(&mut cnf.clauses, &mut state));
    assert_eq!(state.references.index(1).clone(), vec![0, 2]);
    assert_eq!(state.references.index(-1).clone(), vec![1, 2]);
}

#[test]
fn solve_result_has_dual_cells_and_true_literals() {
    let clauses: &[&[isize]] = &[&[1, 2], &[-1, 3], &[-2, -3]];
    let a = run(3, clauses).unwrap();
    for v in 1..=3isize {
        let pair = (*a.index(v), *a.index(-v));
        assert!(matches!(
            pair,
            (Assignment::Unassigned, Assignment::Unassigned)
                | (Assignment::True, Assignment::False)
                | (Assignment::False, Assignment::True)
        ));
    }
    for c in clauses {
        assert!(c.iter().any(|&l| *a.index(l) == Assignment::True));
    }
}

#[test]
fn root_backtrack_changes_nothing() {
    let mut cnf = formula(2, &[&[1], &[2], &[-1, -2]]);
    let mut state = State::new(2);
    assert!(connect_clauses(&mut cnf.clauses, &mut state));
    assert!(!propagate(&mut cnf.clauses, &mut state));
    let trail = state.trail.clone();
    let counters: Vec<(usize, usize, isize)> = cnf.clauses.iter().map(|c| (c.num_true, c.num_false, c.sum)).collect();
    assert!(!backtrack(&mut cnf.clauses, &mut state));
    assert_eq!(state.trail, trail);
    assert_eq!(state.level, 0);
    let after: Vec<(usize, usize, isize)> = cnf.clauses.iter().map(|c| (c.num_true, c.num_false, c.sum)).collect();
    assert_eq!(after, counters);
}
