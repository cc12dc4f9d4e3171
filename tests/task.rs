use sat_solvers::task::{Clause, Task};

#[test]
fn empty_clause_is_never_satisfied() {
    let clause = Clause::empty();
    assert!(!clause.is_satisfied(&vec![Some(true)]));
    assert!(!clause.can_be_satisfied(&vec![None]));
}

#[test]
fn is_satisfied_needs_every_variable_assigned() {
    let clause = Clause::from_set(vec![1, 2]);
    assert!(!clause.is_satisfied(&vec![Some(true), None]));
    assert!(clause.can_be_satisfied(&vec![Some(true), None]));
    assert!(clause.is_satisfied(&vec![Some(true), Some(false)]));
    assert!(!clause.is_satisfied(&vec![Some(false), Some(false)]));
}

#[test]
fn contradicted_clause_cannot_be_satisfied() {
    let clause = Clause::from_set(vec![1, -2]);
    assert!(!clause.can_be_satisfied(&vec![Some(false), Some(true)]));
    assert!(clause.can_be_satisfied(&vec![Some(false), None]));
}

#[test]
fn from_literal_iter_drops_repeats() {
    let clause = Clause::from_literal_iter(vec![3, -1, 3, 2, -1]);
    assert_eq!(clause.literals, vec![3, -1, 2]);
    assert_eq!(clause.n_literals, 3);
}

#[test]
fn remove_and_add_literal_are_inverse() {
    let mut clause = Clause::from_set(vec![1, -2, 3]);
    clause.remove_literal(-2);
    assert_eq!(clause.literals, vec![1, 3]);
    assert_eq!(clause.n_literals, 2);
    clause.add_literal(-2);
    assert_eq!(clause.literals, vec![1, 3, -2]);
    assert_eq!(clause.n_literals, 3);
}

#[test]
fn task_clause_list_and_assignment() {
    let mut task = Task::empty(3, 2);
    assert_eq!(task.assignment, vec![None, None, None]);
    assert_eq!(task.n_clauses, 0);
    task.add_clause(Clause::from_set(vec![1, 2]));
    task.add_clause(Clause::from_set(vec![-3]));
    assert_eq!(task.n_clauses, 2);
    assert_eq!(task.clauses[0].literals, vec![-3]);
    assert!(task.is_solvable());
    task.assign_literal(3, Some(true));
    assert!(!task.is_solvable());
    task.assign_literal(3, Some(false));
    task.assign_literal(1, Some(true));
    assert!(task.is_nth_satisfied(0));
    assert!(!task.is_solved());
    task.assign_literal(2, Some(false));
    assert!(task.is_solved());
    let removed = task.remove_nth_clause(0);
    assert_eq!(removed.literals, vec![-3]);
    assert_eq!(task.n_clauses, 1);
}
