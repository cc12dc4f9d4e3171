//! A DPLL satisfiability solver for formulas in conjunctive normal form.
pub mod dpll;
pub mod outcome;
pub mod parser;
pub mod task;
