use sat_solvers::dpll::DPLLSolver;
use sat_solvers::outcome::TaskResult;
use sat_solvers::parser::Parser;
use std::collections::HashSet;
use std::iter::zip;

#[test]
fn test_parse_basic_str() {
    let parser = Parser {};
    let task = parser
        .parse_str(
            "p cnf 5 3
            1 -5 4 0
            -1 5 3 4 0
            -3 -4 0
            %6 10 -11",
        )
        .unwrap();
    let expected = [
        HashSet::from_iter([1, -5, 4]),
        HashSet::from_iter([-1, 5, 3, 4]),
        HashSet::from_iter([-3, -4]),
    ];
    for (clause, expected_literals) in zip(&task.clauses, expected.iter()) {
        assert_eq!(&clause.literals.clone().into_iter().collect::<HashSet<isize>>(), expected_literals)
    }
}

#[test]
fn parse_reads_counts_and_stops_at_percent() {
    let parser = Parser {};
    let task = parser.parse_str("c a comment\np cnf 4 2\n1 -2 0\r\n3 4 0\n%\n0\n").unwrap();
    assert_eq!(task.n_variables, 4);
    assert_eq!(task.n_clauses, 2);
    assert_eq!(task.assignment, vec![None; 4]);
    assert_eq!(task.clauses[0].literals, vec![1, -2]);
    assert_eq!(task.clauses[1].literals, vec![3, 4]);
}

#[test]
fn parse_keeps_each_literal_once() {
    let parser = Parser {};
    let task = parser.parse_str("p cnf 3 1\n2 -1 2 +3 0").unwrap();
    assert_eq!(task.clauses[0].literals, vec![2, -1, 3]);
    assert_eq!(task.clauses[0].n_literals, 3);
}

#[test]
fn parse_rejects_malformed_text() {
    let parser = Parser {};
    assert!(parser.parse_str("1 2 0\n").is_none());
    assert!(parser.parse_str("p cnf 3\n1 0\n").is_none());
    assert!(parser.parse_str("p cnf x 1\n1 0\n").is_none());
    assert!(parser.parse_str("p cnf 3 1\n1 2\n").is_none());
    assert!(parser.parse_str("p cnf 3 1\n1 4 0\n").is_none());
    assert!(parser.parse_str("p cnf 3 1\n1 a 0\n").is_none());
    assert!(parser.parse_str("p cnf 3 1\n\n").is_none());
}

#[test]
fn parsed_formula_solves() {
    let parser = Parser {};
    let mut task = parser
        .parse_str("p cnf 5 3\n1 -5 4 0\n-1 5 3 4 0\n-3 -4 0\n")
        .unwrap();
    let mut solver = DPLLSolver::new();
    match solver.solve(&mut task, 1) {
        TaskResult::SAT(sat) => {
            task.assignment = sat.into_iter().map(Some).collect();
            assert!(task.is_solved());
        }
        _ => panic!("expected a satisfying assignment"),
    }
    let mut task = parser.parse_str("p cnf 2 2\n1 0\n-1 0\n").unwrap();
    assert!(matches!(solver.solve(&mut task, 1), TaskResult::UNSAT(_)));
}
