use sat_solvers::dpll::DPLLSolver;
use sat_solvers::outcome::TaskResult;
use sat_solvers::parser::Parser;
use sat_solvers::task::{Clause, Task};

fn formula(n_variables: usize, clauses: &[&[isize]]) -> Task {
    let mut task = Task::empty(n_variables, clauses.len());
    for c in clauses {
        task.clauses.push(Clause::from_literal_iter(c.to_vec()));
        task.n_clauses += 1;
    }
    task
}

fn holds(clauses: &[&[isize]], values: &[bool]) -> bool {
    clauses.iter().all(|c| {
        c.iter().any(|&l| {
            let v = values[l.unsigned_abs() - 1];
            if l > 0 { v } else { !v }
        })
    })
}

fn brute_force(n_variables: usize, clauses: &[&[isize]]) -> bool {
    (0u32..(1u32 << n_variables)).any(|bits| {
        let values: Vec<bool> = (0..n_variables).map(|i| bits & (1 << i) != 0).collect();
        holds(clauses, &values)
    })
}

fn snapshot(task: &Task) -> (Vec<Vec<isize>>, Vec<Option<bool>>, usize) {
    (
        task.clauses.iter().map(|c| c.literals.clone()).collect(),
        task.assignment.clone(),
        task.n_clauses,
    )
}

#[test]
fn scenario_a_is_satisfiable() {
    let clauses: &[&[isize]] = &[&[1, -5, 4], &[-1, 5, 3, 4], &[-3, -4]];
    let mut task = formula(5, clauses);
    let mut solver = DPLLSolver::new();
    match solver.solve(&mut task, 1) {
        TaskResult::SAT(values) => {
            assert_eq!(values.len(), 5);
            assert!(holds(clauses, &values));
        }
        _ => panic!("expected a satisfying assignment"),
    }
}

#[test]
fn test_basic_task() {
    let mut solver = DPLLSolver::new();
    let parser = Parser {};
    let mut task = parser
        .parse_str(
            "p cnf 5 3
            1 -5 4 0
            -1 5 3 4 0
            -3 -4 0",
        )
        .unwrap();
    let result = solver.solve(&mut task, 1);
    match result {
        TaskResult::SAT(sat) => {
            task.assignment = sat.into_iter().map(Some).collect();
            assert_eq!(task.is_solved(), true);
        }
        _ => assert!(false),
    }
}

#[test]
fn scenario_b_direct_contradiction() {
    let mut task = formula(2, &[&[1], &[-1]]);
    let mut solver = DPLLSolver::new();
    assert!(matches!(solver.solve(&mut task, 1), TaskResult::UNSAT(_)));
}

#[test]
fn scenario_c_units_violate_first_clause() {
    let mut task = formula(3, &[&[1, 2, 3], &[-1], &[-2], &[-3]]);
    let mut solver = DPLLSolver::new();
    assert!(matches!(solver.solve(&mut task, 1), TaskResult::UNSAT(_)));
}

#[test]
fn scenario_d_no_clauses_fills_true() {
    let mut task = formula(1, &[]);
    let mut solver = DPLLSolver::new();
    assert_eq!(solver.solve(&mut task, 1), TaskResult::SAT(vec![true]));
}

#[test]
fn scenario_e_tautology_clause() {
    let clause = Clause::from_literal_iter(vec![1, -1, 2]);
    for v1 in [true, false] {
        for v2 in [true, false] {
            assert!(clause.is_satisfied(&vec![Some(v1), Some(v2)]));
        }
        assert!(clause.can_be_satisfied(&vec![Some(v1), None]));
    }
    let mut task = formula(2, &[&[1, -1, 2]]);
    let mut solver = DPLLSolver::new();
    assert!(matches!(solver.solve(&mut task, 1), TaskResult::SAT(_)));
}

#[test]
fn answers_agree_with_brute_force() {
    let cases: Vec<(usize, Vec<&[isize]>)> = vec![
        (3, vec![&[1, 2], &[-1, 2], &[1, -2], &[-1, -2]]),
        (3, vec![&[1, 2, 3], &[-1, -2], &[-2, -3], &[-1, -3], &[2]]),
        (4, vec![&[1, 2], &[-2, 3], &[-3, 4], &[-4, -1], &[-1, 2]]),
        (4, vec![&[1, -2, 3], &[-1, 4], &[2, -4], &[-3, -4], &[3, 4]]),
        (3, vec![&[1], &[-1, 2], &[-2, 3], &[-3]]),
        (2, vec![&[1, 2], &[-1, -2], &[1, -2], &[-1, 2]]),
        (5, vec![&[1, 2, 3], &[-4, 5], &[-1, -5], &[2, -3, 4]]),
    ];
    for (n, clauses) in cases {
        let mut task = formula(n, &clauses);
        let mut solver = DPLLSolver::new();
        match solver.solve(&mut task, 1) {
            TaskResult::SAT(values) => {
                assert_eq!(values.len(), n);
                assert!(holds(&clauses, &values));
            }
            TaskResult::UNSAT(_) => assert!(!brute_force(n, &clauses)),
            TaskResult::UNKNOWN => panic!("no search ends unknown"),
        }
    }
}

#[test]
fn solve_leaves_the_formula_as_it_was() {
    for clauses in [
        vec![&[1, -2][..], &[2, 3], &[-1, -3], &[-2, -3]],
        vec![&[1][..], &[-1, 2], &[-2]],
    ] {
        let mut task = formula(3, &clauses);
        let before = snapshot(&task);
        let mut solver = DPLLSolver::new();
        let _ = solver.solve(&mut task, 1);
        assert_eq!(snapshot(&task), before);
        assert_eq!(solver.trail_len(), 0);
    }
}

#[test]
fn propagation_then_undo_restores_the_formula() {
    let mut task = formula(4, &[&[1], &[-1, 2], &[-2, 3, 4], &[1, 4], &[-3, -4]]);
    let before = snapshot(&task);
    let mut solver = DPLLSolver::new();
    solver.unit_propagation(&mut task);
    assert_eq!(task.assignment[0], Some(true));
    assert_eq!(task.assignment[1], Some(true));
    assert_eq!(task.n_clauses, 2);
    assert!(solver.trail_len() > 0);
    solver.undo_to(&mut task, 0);
    assert_eq!(snapshot(&task), before);
    assert_eq!(solver.trail_len(), 0);
}

#[test]
fn pure_removal_then_undo_restores_the_formula() {
    let mut task = formula(3, &[&[1, 2], &[1, -3], &[-2, 3]]);
    let before = snapshot(&task);
    let mut solver = DPLLSolver::new();
    solver.pure_literal_removal(&mut task);
    assert_eq!(task.assignment[0], Some(true));
    assert_eq!(task.n_clauses, 0);
    solver.undo_to(&mut task, 0);
    assert_eq!(snapshot(&task), before);
}

#[test]
fn propagation_twice_changes_nothing() {
    let mut task = formula(4, &[&[1], &[-1, 2], &[-2, 3, 4], &[3, -4]]);
    let mut solver = DPLLSolver::new();
    solver.unit_propagation(&mut task);
    let once = snapshot(&task);
    let mark = solver.trail_len();
    solver.unit_propagation(&mut task);
    assert_eq!(snapshot(&task), once);
    assert_eq!(solver.trail_len(), mark);
}

#[test]
fn pure_removal_twice_changes_nothing() {
    let mut task = formula(4, &[&[1, 2], &[-2, 3], &[2, -3], &[-1, 4, -4]]);
    let mut solver = DPLLSolver::new();
    solver.pure_literal_removal(&mut task);
    let once = snapshot(&task);
    let mark = solver.trail_len();
    solver.pure_literal_removal(&mut task);
    assert_eq!(snapshot(&task), once);
    assert_eq!(solver.trail_len(), mark);
}

#[test]
fn pure_negative_literal_is_set_false() {
    let mut task = formula(2, &[&[-1, 2], &[-1, -2]]);
    let mut solver = DPLLSolver::new();
    solver.pure_literal_removal(&mut task);
    assert_eq!(task.assignment[0], Some(false));
    assert_eq!(task.n_clauses, 0);
}

#[test]
fn propagation_strips_negated_literals() {
    let mut task = formula(3, &[&[-1, 2, 3], &[1]]);
    let mut solver = DPLLSolver::new();
    solver.unit_propagation(&mut task);
    assert_eq!(task.n_clauses, 1);
    assert_eq!(task.clauses[0].literals, vec![2, 3]);
    assert_eq!(task.clauses[0].n_literals, 2);
}

#[test]
fn propagation_derives_empty_clause_from_direct_contradiction() {
    let mut task = formula(2, &[&[1], &[-1]]);
    let mut solver = DPLLSolver::new();
    solver.unit_propagation(&mut task);
    assert_eq!(task.n_clauses, 1);
    assert!(task.clauses[0].literals.is_empty());
    assert_eq!(task.clauses[0].n_literals, 0);
    assert_eq!(task.assignment[0], Some(true));
    assert_eq!(task.assignment[1], None);
    assert!(!task.is_solvable());
}

#[test]
fn propagation_sets_all_three_and_empties_a_clause() {
    let mut task = formula(3, &[&[1, 2, 3], &[-1], &[-2], &[-3]]);
    let mut solver = DPLLSolver::new();
    solver.unit_propagation(&mut task);
    assert!(task.assignment.iter().all(|v| v.is_some()));
    assert!(task.clauses.iter().any(|c| c.literals.is_empty()));
    assert!(!task.is_solvable());
}

#[test]
fn pure_removal_sets_lowest_pure_first_and_drops_satisfied_clauses() {
    let mut task = formula(2, &[&[1, 2], &[-1, 2]]);
    let mut solver = DPLLSolver::new();
    solver.pure_literal_removal(&mut task);
    assert_eq!(task.assignment[1], Some(true));
    assert_eq!(task.n_clauses, 0);
    assert!(task.clauses.is_empty());
}

#[test]
fn pure_removal_is_deterministic() {
    let clauses: &[&[isize]] = &[&[1, 2], &[-2, 3], &[-1, -3, 4], &[2, -4]];
    let mut first = formula(4, clauses);
    let mut second = formula(4, clauses);
    DPLLSolver::new().pure_literal_removal(&mut first);
    DPLLSolver::new().pure_literal_removal(&mut second);
    assert_eq!(snapshot(&first), snapshot(&second));
}

#[test]
fn no_clauses_keeps_fixed_values_and_fills_true() {
    let mut task = formula(3, &[]);
    task.assign_literal(1, Some(false));
    let mut solver = DPLLSolver::new();
    assert_eq!(solver.solve(&mut task, 2), TaskResult::SAT(vec![false, true, true]));
}

#[test]
fn propagation_strips_a_false_unit_to_the_empty_clause() {
    let mut task = formula(2, &[&[1], &[-1, 2]]);
    task.assign_literal(1, Some(false));
    let mut solver = DPLLSolver::new();
    solver.unit_propagation(&mut task);
    assert_eq!(task.assignment, vec![Some(false), None]);
    assert_eq!(task.n_clauses, 1);
    assert!(task.clauses[0].literals.is_empty());
    assert!(task.clauses.iter().all(|c| c.n_literals != 1));
    assert!(!task.is_solvable());
    solver.undo_to(&mut task, 0);
    assert_eq!(task.clauses[0].literals, vec![1]);
    assert_eq!(task.clauses[1].literals, vec![-1, 2]);
}
