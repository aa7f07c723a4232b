//! A DPLL satisfiability solver for formulas in conjunctive normal form,
//! with unit propagation over per-literal occurrence lists, clause counters,
//! a largest-individual-sum decision rule and chronological backtracking.
pub mod data;
pub mod dimacs;
pub mod dpll;
pub mod laws;
pub mod model;
pub mod nvec;
pub mod progress;
pub mod search;
