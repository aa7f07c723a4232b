use babysat::data::{witness, Assignment};
use babysat::dimacs::{parse, parse_cnf, words, ParseError};
use babysat::dpll::solve;
use babysat::nvec::NVec;

fn literals(text: &str) -> Vec<Vec<isize>> {
    let (_, _, clauses) = parse(text.as_bytes()).unwrap();
    clauses.into_iter().map(|c| c.literals).collect()
}

fn holds(a: &NVec<Assignment>, l: isize) -> bool {
    let v = !matches!(a.index(l.abs()), Assignment::False);
    if l > 0 {
        v
    } else {
        !v
    }
}

/// Solves the text and checks any witness against the parsed clauses by a
/// scan of every clause.
fn solve_text(text: &str) -> Option<Vec<isize>> {
    let clauses = literals(text);
    let cnf = parse_cnf(String::from("input.cnf"), text.as_bytes()).unwrap();
    let n = cnf.num_variables;
    match solve(cnf) {
        Some(a) => {
            for c in &clauses {
                assert!(c.iter().any(|&l| holds(&a, l)), "clause {:?} not satisfied", c);
            }
            let w = witness(&a);
            assert_eq!(w.len(), n);
            Some(w)
        }
        None => None,
    }
}

#[test]
fn dimacs_single_unit_sat() {
    assert_eq!(solve_text("p cnf 1 1\n 1 0"), Some(vec![1]));
}

#[test]
fn dimacs_contradictory_units_unsat() {
    assert_eq!(solve_text("p cnf 1 2\n 1 0\n -1 0"), None);
}

#[test]
fn dimacs_three_clauses_sat() {
    let w = solve_text("p cnf 3 3\n 1 2 0\n -1 3 0\n -2 -3 0").unwrap();
    assert_eq!(w.len(), 3);
}

#[test]
fn dimacs_two_variables_enumerated_unsat() {
    assert_eq!(solve_text("p cnf 3 4\n 1 2 0\n -1 2 0\n 1 -2 0\n -1 -2 0"), None);
}

#[test]
fn dimacs_six_clauses_unsat() {
    assert_eq!(solve_text("p cnf 4 6\n 1 2 0\n -1 3 0\n -2 3 0\n -3 4 0\n -3 -4 0\n -1 -2 0"), None);
}

#[test]
fn dimacs_pigeonhole_three_two_unsat() {
    let text = "c three pigeons, two holes\np cnf 6 9\n1 2 0\n3 4 0\n5 6 0\n-1 -3 0\n-1 -5 0\n-3 -5 0\n-2 -4 0\n-2 -6 0\n-4 -6 0\n";
    assert_eq!(solve_text(text), None);
}

#[test]
fn dimacs_empty_formula_sat() {
    assert_eq!(solve_text("p cnf 3 0\n"), Some(vec![1, 2, 3]));
}

#[test]
fn dimacs_empty_clause_unsat() {
    assert_eq!(solve_text("p cnf 2 2\n1 2 0\n0\n"), None);
}

#[test]
fn dimacs_witness_shows_false_variables() {
    assert_eq!(solve_text("p cnf 2 2\n-1 0\n-2 0\n"), Some(vec![-1, -2]));
}

#[test]
fn dimacs_comments_and_multiline_clauses() {
    let text = "c first\nc second\np cnf 3 2\nc inside\n1 -2\n3 0\nc between\n-3\n0\nc last\n";
    assert_eq!(literals(text), vec![vec![1, -2, 3], vec![-3]]);
}

#[test]
fn dimacs_header_numbers() {
    let (n, m, clauses) = parse(b"p cnf 12 1\n-12 5 0\n").unwrap();
    assert_eq!((n, m), (12, 1));
    assert_eq!(clauses[0].literals, vec![-12, 5]);
    assert_eq!(clauses[0].sum, -7);
    assert_eq!(clauses[0].size, 2);
}

#[test]
fn dimacs_errors() {
    assert_eq!(parse(b"").unwrap_err(), ParseError::Header);
    assert_eq!(parse(b"p dnf 1 1\n1 0\n").unwrap_err(), ParseError::Header);
    assert_eq!(parse(b"p cnf x 1\n1 0\n").unwrap_err(), ParseError::Header);
    assert_eq!(parse(b"p cnf 1 1\n1 x 0\n").unwrap_err(), ParseError::Number);
    assert_eq!(parse(b"p cnf 1 1\n1 --1 0\n").unwrap_err(), ParseError::Number);
    assert_eq!(parse(b"p cnf 2 1\n1 3 0\n").unwrap_err(), ParseError::Range);
    assert_eq!(parse(b"p cnf 2 1\n1 -3 0\n").unwrap_err(), ParseError::Range);
    assert_eq!(parse(b"p cnf 2 1\n1 2\n").unwrap_err(), ParseError::Terminator);
    assert_eq!(parse(b"p cnf 2 1\n1 0\n2 0\n").unwrap_err(), ParseError::Count);
    assert_eq!(parse(b"p cnf 2 3\n1 0\n2 0\n").unwrap_err(), ParseError::Count);
    assert_eq!(
        parse(b"p cnf 9223372036854775807 1\n1 0\n").unwrap_err(),
        ParseError::Variables
    );
    assert_eq!(
        parse(b"p cnf 99999999999999999999 1\n1 0\n").unwrap_err(),
        ParseError::Header
    );
}

#[test]
fn dimacs_first_error_wins() {
    assert_eq!(parse(b"p cnf 2 1\n5 x 0\n").unwrap_err(), ParseError::Range);
    assert_eq!(parse(b"p cnf 2 1\nx 5 0\n").unwrap_err(), ParseError::Number);
}

#[test]
fn dimacs_words_skip_comment_lines_only() {
    let w = words(b"c note\n p  cnf\t1 1\r\nc\n1 0 c\n");
    let w: Vec<&[u8]> = w.iter().map(|x| x.as_slice()).collect();
    let expected: Vec<&[u8]> = vec![b"p", b"cnf", b"1", b"1", b"1", b"0", b"c"];
    assert_eq!(w, expected);
}

#[test]
fn dimacs_parse_cnf_keeps_name() {
    let cnf = parse_cnf(String::from("a.cnf"), b"p cnf 1 1\n1 0\n").unwrap();
    assert_eq!(cnf.filename, "a.cnf");
    assert_eq!(cnf.num_variables, 1);
    assert_eq!(cnf.num_clauses, 1);
    assert_eq!(cnf.clauses.len(), 1);
}

#[test]
fn dimacs_clause_sum_too_large() {
    let text = b"p cnf 9223372036854775806 1\n9223372036854775806 -9223372036854775806 0\n";
    assert_eq!(parse(text).unwrap_err(), ParseError::ClauseSize);
    let (_, _, clauses) = parse(b"p cnf 9223372036854775806 1\n9223372036854775806 0\n").unwrap();
    assert_eq!(clauses[0].sum, 9223372036854775806);
}

#[test]
fn witness_lists_every_variable() {
    let mut a: NVec<Assignment> = NVec::new(4);
    *a.index_mut(2) = Assignment::False;
    *a.index_mut(-2) = Assignment::True;
    *a.index_mut(3) = Assignment::True;
    *a.index_mut(-3) = Assignment::False;
    assert_eq!(witness(&a), vec![1, -2, 3, 4]);
    let empty: NVec<Assignment> = NVec::new(0);
    assert!(witness(&empty).is_empty());
}
