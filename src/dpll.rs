use vstd::prelude::*;

use crate::outcome::TaskResult;
use crate::task::{
    all_assigned, clause_holds, clause_ok, clause_open, clause_satisfied, counts_ok, extends,
    formula_holds, lemma_remove_keeps_distinct, lit_false, lit_holds, lit_ok, lit_true, var_index,
    var_of, Clause, Task, TaskView,
};

verus! {

/// One reversible change made to a formula during simplification.
pub enum Undo {
    /// Variable `.0` held value `.1` before it was fixed.
    Assigned(usize, Option<bool>),
    /// Clause `.1` was taken out of the active list at index `.0`.
    RemovedClause(usize, Clause),
    /// Literal `.2` was stripped from clause `.0`, where it stood at position `.1`.
    StrippedLiteral(usize, usize, isize),
}

/// The state before `op`, given the state after it (`None` where `op` cannot be reverted).
pub open spec fn undo_step(op: Undo, s: TaskView) -> Option<TaskView> {
    match op {
        Undo::Assigned(v, prev) => if 1 <= v <= s.assignment.len() {
            Some(TaskView { assignment: s.assignment.update(v - 1, prev), ..s })
        } else {
            None
        },
        Undo::RemovedClause(i, c) => if i <= s.clauses.len() {
            Some(TaskView { clauses: s.clauses.insert(i as int, c@), ..s })
        } else {
            None
        },
        Undo::StrippedLiteral(i, p, l) => if i < s.clauses.len() && p <= s.clauses[i as int].len() {
            Some(
                TaskView {
                    clauses: s.clauses.update(i as int, s.clauses[i as int].insert(p as int, l)),
                    ..s
                },
            )
        } else {
            None
        },
    }
}

/// The state reached by reverting, newest first, every entry of `trail` at or above `mark`.
pub open spec fn unwind(trail: Seq<Undo>, s: TaskView, mark: int) -> Option<TaskView>
    decreases trail.len(),
{
    if trail.len() <= mark || trail.len() == 0 {
        Some(s)
    } else {
        match undo_step(trail.last(), s) {
            Some(s2) => unwind(trail.drop_last(), s2, mark),
            None => None,
        }
    }
}

/// A clause that the trail keeps for reinsertion still caches its literal count.
pub open spec fn trail_ok(trail: Seq<Undo>) -> bool {
    forall|k: int|
        0 <= k < trail.len() ==> match #[trigger] trail[k] {
            Undo::RemovedClause(_, c) => c.n_literals == c.literals.len(),
            _ => true,
        }
}

/// `post` came from `pre` by steps that keep every fixed value, that only narrow the
/// models (each model of `post` is one of `pre`), and that keep a model where `pre` had one.
pub open spec fn refines(pre: TaskView, post: TaskView) -> bool {
    &&& post.n_variables == pre.n_variables
    &&& post.assignment.len() == pre.assignment.len()
    &&& forall|i: int|
        0 <= i < pre.assignment.len() && (#[trigger] pre.assignment[i]) is Some
            ==> post.assignment[i] == pre.assignment[i]
    &&& forall|t: Seq<bool>| #[trigger] post.model(t) ==> pre.model(t)
    &&& pre.satisfiable() ==> post.satisfiable()
}

/// Some active clause has exactly one literal.
pub open spec fn has_unit(s: TaskView) -> bool {
    exists|j: int| 0 <= j < s.clauses.len() && (#[trigger] s.clauses[j]).len() == 1
}

/// Number of literal occurrences over all clauses.
pub open spec fn total_literals(cs: Seq<Seq<isize>>) -> nat
    decreases cs.len(),
{
    if cs.len() == 0 {
        0
    } else {
        total_literals(cs.drop_last()) + cs.last().len()
    }
}

/// Literal `l` occurs in some active clause.
pub open spec fn occurs(s: TaskView, l: isize) -> bool {
    exists|j: int| 0 <= j < s.clauses.len() && (#[trigger] s.clauses[j]).contains(l)
}

/// Variable `v` is unassigned and occurs with at most one sign among the active clauses.
pub open spec fn is_pure(s: TaskView, v: int) -> bool {
    &&& 1 <= v <= s.n_variables
    &&& s.assignment[v - 1] is None
    &&& !(occurs(s, v as isize) && occurs(s, -v as isize))
}

/// Some variable is pure.
pub open spec fn has_pure(s: TaskView) -> bool {
    exists|v: int| #[trigger] is_pure(s, v)
}

/// Number of unassigned variables.
pub open spec fn n_unassigned(a: Seq<Option<bool>>) -> nat
    decreases a.len(),
{
    if a.len() == 0 {
        0
    } else {
        n_unassigned(a.drop_last()) + if a.last() is None {
            1nat
        } else {
            0nat
        }
    }
}

/// The total assignment read off a partial one that assigns every variable.
pub open spec fn values_of(a: Seq<Option<bool>>) -> Seq<bool> {
    Seq::new(a.len(), |i: int| a[i]->Some_0)
}

/// Every model of `pre` is a model of `post`.
pub open spec fn keeps_models(pre: TaskView, post: TaskView) -> bool {
    forall|t: Seq<bool>| #[trigger] pre.model(t) ==> post.model(t)
}

/// Clause `c` without literal `x`.
pub open spec fn strip(c: Seq<isize>, x: isize) -> Seq<isize>
    decreases c.len(),
{
    if c.len() == 0 {
        c
    } else if c.last() == x {
        strip(c.drop_last(), x)
    } else {
        strip(c.drop_last(), x).push(c.last())
    }
}

/// The clauses left once literal `l` is fixed true: those holding `l` are dropped, and
/// `-l` is stripped from the others, whose order is kept.
pub open spec fn after_unit(cs: Seq<Seq<isize>>, l: isize) -> Seq<Seq<isize>>
    decreases cs.len(),
{
    if cs.len() == 0 {
        cs
    } else if cs.last().contains(l) {
        after_unit(cs.drop_last(), l)
    } else {
        after_unit(cs.drop_last(), l).push(strip(cs.last(), (-l) as isize))
    }
}

/// The clauses left once pure literal `l` is fixed true: those holding `l` are dropped.
pub open spec fn after_pure(cs: Seq<Seq<isize>>, l: isize) -> Seq<Seq<isize>>
    decreases cs.len(),
{
    if cs.len() == 0 {
        cs
    } else if cs.last().contains(l) {
        after_pure(cs.drop_last(), l)
    } else {
        after_pure(cs.drop_last(), l).push(cs.last())
    }
}

/// The literal of the first unit clause (one of exactly one literal) at or after index
/// `j`, or 0.
pub open spec fn unit_from(s: TaskView, j: int) -> isize
    decreases s.clauses.len() - j,
{
    if j < 0 || j >= s.clauses.len() {
        0
    } else if s.clauses[j].len() == 1 {
        s.clauses[j][0]
    } else {
        unit_from(s, j + 1)
    }
}

/// Fixing literal `l` true and simplifying the clauses by it.
pub open spec fn unit_step(s: TaskView, l: isize) -> TaskView {
    TaskView {
        assignment: s.assignment.update(var_of(l) - 1, Some(l > 0)),
        clauses: after_unit(s.clauses, l),
        ..s
    }
}

/// The literal that a unit clause `{l}` makes true: `l` itself, or its negation where `l`
/// is already false (the negation is then already true, and the clause is stripped empty).
pub open spec fn forced_literal(s: TaskView, l: isize) -> isize {
    if lit_false(l, s.assignment) {
        (-l) as isize
    } else {
        l
    }
}

/// Unit propagation: the literal forced by the first unit clause is fixed true, the
/// clauses simplified by it, and so on until no unit clause is left or `fuel` steps are
/// made (each step removes a literal occurrence, so one more than their count is enough).
pub open spec fn propagate(s: TaskView, fuel: nat) -> TaskView
    decreases fuel,
{
    if fuel == 0 || unit_from(s, 0) == 0 {
        s
    } else {
        propagate(unit_step(s, forced_literal(s, unit_from(s, 0))), (fuel - 1) as nat)
    }
}

/// The pure literal of the least pure variable at or above `v` (positive unless only its
/// negation occurs), or 0.
pub open spec fn pure_from(s: TaskView, v: int) -> isize
    decreases s.n_variables + 1 - v,
{
    if v < 1 || v > s.n_variables {
        0
    } else if is_pure(s, v) {
        if !occurs(s, (-v) as isize) {
            v as isize
        } else {
            (-v) as isize
        }
    } else {
        pure_from(s, v + 1)
    }
}

/// Fixing pure literal `l` true and dropping the clauses that hold it.
pub open spec fn pure_step(s: TaskView, l: isize) -> TaskView {
    TaskView {
        assignment: s.assignment.update(var_of(l) - 1, Some(l > 0)),
        clauses: after_pure(s.clauses, l),
        ..s
    }
}

/// Pure-literal elimination: the least pure variable is fixed and the clauses it satisfies
/// dropped, and so on until none is pure or `fuel` steps are made (each step fixes an
/// unassigned variable, so one more than their count is enough).
pub open spec fn purify(s: TaskView, fuel: nat) -> TaskView
    decreases fuel,
{
    if fuel == 0 || pure_from(s, 1) == 0 {
        s
    } else {
        purify(pure_step(s, pure_from(s, 1)), (fuel - 1) as nat)
    }
}

/// Stripping a literal that is absent changes nothing.
pub proof fn lemma_strip_absent(c: Seq<isize>, x: isize)
    requires
        !c.contains(x),
    ensures
        strip(c, x) == c,
    decreases c.len(),
{
    if c.len() > 0 {
        assert(!c.drop_last().contains(x)) by {
            if c.drop_last().contains(x) {
                let k = choose|k: int| 0 <= k < c.drop_last().len() && c.drop_last()[k] == x;
                assert(c[k] == x);
            }
        }
        lemma_strip_absent(c.drop_last(), x);
        assert(c.drop_last().push(c.last()) =~= c);
    }
}

/// In a clause of distinct literals, stripping `x` removes its one position.
pub proof fn lemma_strip_at(c: Seq<isize>, p: int)
    requires
        c.no_duplicates(),
        0 <= p < c.len(),
    ensures
        strip(c, c[p]) == c.remove(p),
    decreases c.len(),
{
    let x = c[p];
    let d = c.drop_last();
    if p == c.len() - 1 {
        assert(!d.contains(x)) by {
            if d.contains(x) {
                let k = choose|k: int| 0 <= k < d.len() && d[k] == x;
                assert(c[k] == x);
            }
        }
        lemma_strip_absent(d, x);
        assert(c.remove(p) =~= d);
    } else {
        assert(d.no_duplicates());
        assert(d[p] == x);
        lemma_strip_at(d, p);
        assert(c.last() != x);
        assert(d.remove(p).push(c.last()) =~= c.remove(p));
    }
}

/// Keeping models composes.
pub proof fn lemma_keeps_trans(a: TaskView, b: TaskView, c: TaskView)
    requires
        keeps_models(a, b),
        keeps_models(b, c),
    ensures
        keeps_models(a, c),
{
    assert forall|t: Seq<bool>| #[trigger] a.model(t) implies c.model(t) by {
        assert(b.model(t));
    }
}

/// A partial assignment completed with true for every unassigned variable.
pub open spec fn filled_true(a: Seq<Option<bool>>) -> Seq<bool> {
    Seq::new(a.len(), |i: int| if a[i] is Some { a[i]->Some_0 } else { true })
}

/// With no clauses, the least pure variable is the least unassigned one, taken positive.
pub proof fn lemma_pure_from_no_clauses(s: TaskView, v: int)
    requires
        s.wf(),
        s.clauses.len() == 0,
        v >= 1,
    ensures
        pure_from(s, v) >= 0,
        pure_from(s, v) != 0 ==> v <= pure_from(s, v) <= s.n_variables && s.assignment[pure_from(s, v) - 1] is None,
    decreases s.n_variables + 1 - v,
{
    if v <= s.n_variables {
        if !is_pure(s, v) {
            lemma_pure_from_no_clauses(s, v + 1);
        }
    }
}

/// With no clauses, pure-literal elimination sets unassigned variables true and nothing else.
pub proof fn lemma_purify_no_clauses(s: TaskView, fuel: nat)
    requires
        s.wf(),
        s.clauses.len() == 0,
    ensures
        purify(s, fuel).clauses.len() == 0,
        purify(s, fuel).assignment.len() == s.assignment.len(),
        forall|i: int|
            0 <= i < s.assignment.len() ==> #[trigger] purify(s, fuel).assignment[i] == s.assignment[i] || (
            s.assignment[i] is None && purify(s, fuel).assignment[i] == Some(true)),
    decreases fuel,
{
    if fuel > 0 && pure_from(s, 1) != 0 {
        let l = pure_from(s, 1);
        lemma_pure_from_no_clauses(s, 1);
        let s2 = pure_step(s, l);
        assert(s2.clauses =~= Seq::<Seq<isize>>::empty());
        assert(s2.wf());
        lemma_purify_no_clauses(s2, (fuel - 1) as nat);
        assert forall|i: int| 0 <= i < s.assignment.len() implies #[trigger] purify(s, fuel).assignment[i]
            == s.assignment[i] || (s.assignment[i] is None && purify(s, fuel).assignment[i] == Some(true)) by {
            assert(purify(s, fuel) == purify(s2, (fuel - 1) as nat));
            assert(purify(s2, (fuel - 1) as nat).assignment[i] == s2.assignment[i] || (s2.assignment[i] is None
                && purify(s2, (fuel - 1) as nat).assignment[i] == Some(true)));
        }
    }
}

/// Stripping never lengthens a clause, and strips a one-literal clause of that literal empty.
pub proof fn lemma_strip_len(c: Seq<isize>, x: isize)
    ensures
        strip(c, x).len() <= c.len(),
        c == seq![x] ==> strip(c, x).len() == 0,
    decreases c.len(),
{
    if c.len() > 0 {
        lemma_strip_len(c.drop_last(), x);
        if c == seq![x] {
            assert(c.drop_last() =~= Seq::<isize>::empty());
        }
    }
}

/// Simplifying by `t` never adds literal occurrences, and removes one where some clause is
/// `{t}` or `{-t}`.
pub proof fn lemma_after_unit_shrinks(cs: Seq<Seq<isize>>, t: isize, j: int)
    requires
        t != 0,
        t > isize::MIN,
        0 <= j < cs.len() ==> (cs[j] == seq![t] || cs[j] == seq![(-t) as isize]),
    ensures
        total_literals(after_unit(cs, t)) <= total_literals(cs),
        0 <= j < cs.len() ==> total_literals(after_unit(cs, t)) < total_literals(cs),
    decreases cs.len(),
{
    if cs.len() > 0 {
        let d = cs.drop_last();
        let c = cs.last();
        let r = after_unit(d, t);
        assert(r.push(strip(c, (-t) as isize)).drop_last() =~= r);
        assert(cs.drop_last() == d);
        if j == cs.len() - 1 {
            lemma_after_unit_shrinks(d, t, -1);
            if c == seq![t] {
                assert(c.contains(t)) by {
                    assert(c[0] == t);
                }
            } else {
                assert(!c.contains(t)) by {
                    if c.contains(t) {
                        assert(c[0] == t);
                    }
                }
                lemma_strip_len(c, (-t) as isize);
            }
        } else {
            lemma_after_unit_shrinks(d, t, j);
            lemma_strip_len(c, (-t) as isize);
        }
    }
}

/// Every formula refines itself.
pub proof fn lemma_refines_refl(s: TaskView)
    ensures
        refines(s, s),
{
}

/// Refinement composes.
pub proof fn lemma_refines_trans(a: TaskView, b: TaskView, c: TaskView)
    requires
        refines(a, b),
        refines(b, c),
    ensures
        refines(a, c),
{
    assert forall|t: Seq<bool>| #[trigger] c.model(t) implies a.model(t) by {
        assert(b.model(t));
    }
    assert forall|i: int| 0 <= i < a.assignment.len() && (#[trigger] a.assignment[i]) is Some implies c.assignment[i]
        == a.assignment[i] by {
        assert(b.assignment[i] == a.assignment[i]);
    }
}

/// A literal that is true under a partial assignment holds under every extension of it.
pub proof fn lemma_lit_value(l: isize, a: Seq<Option<bool>>, t: Seq<bool>)
    requires
        lit_ok(l, a.len()),
        extends(t, a),
    ensures
        lit_true(l, a) ==> lit_holds(l, t),
        lit_false(l, a) ==> !lit_holds(l, t),
{
    let i = var_of(l) - 1;
    if a[i] is Some {
        assert(t[i] == a[i]->Some_0);
    }
}

/// Extending the clause list by one clause at index `i`: models are those of both parts.
pub proof fn lemma_holds_insert(cs: Seq<Seq<isize>>, i: int, c: Seq<isize>, t: Seq<bool>)
    requires
        0 <= i <= cs.len(),
    ensures
        formula_holds(cs.insert(i, c), t) <==> (formula_holds(cs, t) && clause_holds(c, t)),
{
    let ds = cs.insert(i, c);
    if formula_holds(ds, t) {
        assert(clause_holds(ds[i], t));
        assert forall|j: int| 0 <= j < cs.len() implies clause_holds(#[trigger] cs[j], t) by {
            if j < i {
                assert(ds[j] == cs[j]);
            } else {
                assert(ds[j + 1] == cs[j]);
            }
        }
    }
    if formula_holds(cs, t) && clause_holds(c, t) {
        assert forall|j: int| 0 <= j < ds.len() implies clause_holds(#[trigger] ds[j], t) by {
            if j < i {
                assert(ds[j] == cs[j]);
            } else if j > i {
                assert(ds[j] == cs[j - 1]);
            }
        }
    }
}

/// Dropping a clause that contains a literal already true refines the formula.
pub proof fn lemma_drop_true_clause(s: TaskView, i: int, l: isize)
    requires
        s.wf(),
        0 <= i < s.clauses.len(),
        s.clauses[i].contains(l),
        lit_ok(l, s.n_variables),
        lit_true(l, s.assignment),
    ensures
        refines(s, TaskView { clauses: s.clauses.remove(i), ..s }),
        keeps_models(s, TaskView { clauses: s.clauses.remove(i), ..s }),
{
    let post = TaskView { clauses: s.clauses.remove(i), ..s };
    assert(s.clauses =~= s.clauses.remove(i).insert(i, s.clauses[i]));
    assert forall|t: Seq<bool>| #[trigger] post.model(t) implies s.model(t) by {
        lemma_lit_value(l, s.assignment, t);
        let q = choose|q: int| 0 <= q < s.clauses[i].len() && s.clauses[i][q] == l;
        assert(lit_holds(s.clauses[i][q], t));
        lemma_holds_insert(post.clauses, i, s.clauses[i], t);
    }
    assert forall|t: Seq<bool>| s.model(t) implies #[trigger] post.model(t) by {
        lemma_holds_insert(post.clauses, i, s.clauses[i], t);
        assert(post.model(t));
    }
    if s.satisfiable() {
        let t = choose|t: Seq<bool>| s.model(t);
        assert(post.model(t));
    }
}

/// Stripping from a clause a literal that is already false refines the formula.
pub proof fn lemma_strip_false_literal(s: TaskView, i: int, p: int)
    requires
        s.wf(),
        0 <= i < s.clauses.len(),
        0 <= p < s.clauses[i].len(),
        lit_false(s.clauses[i][p], s.assignment),
    ensures
        refines(
            s,
            TaskView { clauses: s.clauses.update(i, s.clauses[i].remove(p)), ..s },
        ),
        keeps_models(s, TaskView { clauses: s.clauses.update(i, s.clauses[i].remove(p)), ..s }),
        clause_ok(s.clauses[i].remove(p), s.n_variables),
{
    let c = s.clauses[i];
    let d = c.remove(p);
    let post = TaskView { clauses: s.clauses.update(i, d), ..s };
    assert(clause_ok(c, s.n_variables));
    lemma_remove_keeps_distinct(c, p);
    assert forall|q: int| 0 <= q < d.len() implies lit_ok(#[trigger] d[q], s.n_variables) by {
        if q < p {
            assert(d[q] == c[q]);
        } else {
            assert(d[q] == c[q + 1]);
        }
    }
    assert forall|t: Seq<bool>| #[trigger] post.model(t) implies s.model(t) by {
        assert(clause_holds(post.clauses[i], t));
        let q = choose|q: int| 0 <= q < d.len() && lit_holds(#[trigger] d[q], t);
        if q < p {
            assert(d[q] == c[q]);
        } else {
            assert(d[q] == c[q + 1]);
        }
        assert forall|j: int| 0 <= j < s.clauses.len() implies clause_holds(#[trigger] s.clauses[j], t) by {
            if j != i {
                assert(post.clauses[j] == s.clauses[j]);
            }
        }
    }
    assert forall|t: Seq<bool>| s.model(t) implies #[trigger] post.model(t) by {
        assert(clause_holds(s.clauses[i], t));
        let q = choose|q: int| 0 <= q < c.len() && lit_holds(#[trigger] c[q], t);
        lemma_lit_value(c[p], s.assignment, t);
        assert(q != p);
        if q < p {
            assert(d[q] == c[q]);
        } else {
            assert(d[q - 1] == c[q]);
        }
        assert forall|j: int| 0 <= j < post.clauses.len() implies clause_holds(#[trigger] post.clauses[j], t) by {
            if j != i {
                assert(post.clauses[j] == s.clauses[j]);
            }
        }
        assert(post.model(t));
    }
    if s.satisfiable() {
        let t = choose|t: Seq<bool>| s.model(t);
        assert(post.model(t));
    }
}

/// Fixing the literal of a unit clause, where it is not already false, refines the formula.
pub proof fn lemma_assign_unit(s: TaskView, j: int, l: isize)
    requires
        s.wf(),
        0 <= j < s.clauses.len(),
        s.clauses[j] == seq![l],
        !lit_false(l, s.assignment),
    ensures
        refines(
            s,
            TaskView { assignment: s.assignment.update(var_of(l) - 1, Some(l > 0)), ..s },
        ),
        keeps_models(
            s,
            TaskView { assignment: s.assignment.update(var_of(l) - 1, Some(l > 0)), ..s },
        ),
        lit_ok(l, s.n_variables),
{
    let v = var_of(l) - 1;
    let post = TaskView { assignment: s.assignment.update(v, Some(l > 0)), ..s };
    assert(clause_ok(s.clauses[j], s.n_variables));
    assert(lit_ok(s.clauses[j][0], s.n_variables));
    assert(s.assignment[v] is Some ==> s.assignment[v] == Some(l > 0));
    assert forall|t: Seq<bool>| #[trigger] post.model(t) implies s.model(t) by {
        assert forall|i: int| 0 <= i < s.assignment.len() && (#[trigger] s.assignment[i]) is Some implies t[i]
            == s.assignment[i]->Some_0 by {
            assert(post.assignment[i] is Some);
        }
    }
    assert forall|t: Seq<bool>| s.model(t) implies #[trigger] post.model(t) by {
        assert(clause_holds(s.clauses[j], t));
        assert(lit_holds(s.clauses[j][0], t));
        assert forall|i: int| 0 <= i < post.assignment.len() && (#[trigger] post.assignment[i]) is Some implies t[i]
            == post.assignment[i]->Some_0 by {
            if i != v {
                assert(s.assignment[i] is Some);
            }
        }
        assert(post.model(t));
    }
    if s.satisfiable() {
        let t = choose|t: Seq<bool>| s.model(t);
        assert(post.model(t));
    }
}

/// Fixing a pure literal's variable so that the literal is true refines the formula.
pub proof fn lemma_assign_pure(s: TaskView, l: isize)
    requires
        s.wf(),
        lit_ok(l, s.n_variables),
        s.assignment[var_of(l) - 1] is None,
        !occurs(s, -l as isize),
    ensures
        refines(
            s,
            TaskView { assignment: s.assignment.update(var_of(l) - 1, Some(l > 0)), ..s },
        ),
{
    let v = var_of(l) - 1;
    let post = TaskView { assignment: s.assignment.update(v, Some(l > 0)), ..s };
    assert forall|t: Seq<bool>| #[trigger] post.model(t) implies s.model(t) by {
        assert forall|i: int| 0 <= i < s.assignment.len() && (#[trigger] s.assignment[i]) is Some implies t[i]
            == s.assignment[i]->Some_0 by {
            assert(post.assignment[i] is Some);
        }
    }
    if s.satisfiable() {
        let t = choose|t: Seq<bool>| s.model(t);
        let t2 = t.update(v, l > 0);
        assert forall|j: int| 0 <= j < s.clauses.len() implies clause_holds(#[trigger] s.clauses[j], t2) by {
            let c = s.clauses[j];
            assert(clause_holds(c, t));
            let q = choose|q: int| 0 <= q < c.len() && lit_holds(#[trigger] c[q], t);
            assert(clause_ok(c, s.n_variables));
            assert(lit_ok(c[q], s.n_variables));
            if var_of(c[q]) - 1 == v {
                assert(c[q] != (-l) as isize) by {
                    if c[q] == (-l) as isize {
                        assert(c.contains((-l) as isize));
                        assert(occurs(s, -l as isize));
                    }
                }
                assert(c[q] == l);
                assert(lit_holds(c[q], t2));
            } else {
                assert(lit_holds(c[q], t2));
            }
        }
        assert forall|i: int| 0 <= i < post.assignment.len() && (#[trigger] post.assignment[i]) is Some implies t2[i]
            == post.assignment[i]->Some_0 by {
            if i != v {
                assert(s.assignment[i] is Some);
            }
        }
        assert(post.model(t2));
    }
}

/// Reverting a trail in two parts, newest part first.
pub proof fn lemma_unwind_compose(
    trail: Seq<Undo>,
    mid: int,
    mark: int,
    s: TaskView,
    s_mid: TaskView,
    s0: TaskView,
)
    requires
        0 <= mark <= mid <= trail.len(),
        unwind(trail, s, mid) == Some(s_mid),
        unwind(trail.subrange(0, mid), s_mid, mark) == Some(s0),
    ensures
        unwind(trail, s, mark) == Some(s0),
    decreases trail.len(),
{
    if trail.len() == mid {
        assert(trail.subrange(0, mid) =~= trail);
    } else {
        let s2 = undo_step(trail.last(), s)->Some_0;
        assert(trail.drop_last().subrange(0, mid) =~= trail.subrange(0, mid));
        lemma_unwind_compose(trail.drop_last(), mid, mark, s2, s_mid, s0);
    }
}

/// Fixing an unassigned variable lowers the count of unassigned ones.
pub proof fn lemma_unassign_decreases(a: Seq<Option<bool>>, i: int, b: bool)
    requires
        0 <= i < a.len(),
        a[i] is None,
    ensures
        n_unassigned(a.update(i, Some(b))) < n_unassigned(a),
    decreases a.len(),
{
    let u = a.update(i, Some(b));
    if i == a.len() - 1 {
        assert(u.drop_last() =~= a.drop_last());
    } else {
        assert(u.drop_last() =~= a.drop_last().update(i, Some(b)));
        lemma_unassign_decreases(a.drop_last(), i, b);
    }
}

/// Logging one more reversible step keeps the trail revertible to the same state.
pub proof fn lemma_unwind_push(
    trail: Seq<Undo>,
    op: Undo,
    mark: int,
    before: TaskView,
    after: TaskView,
    s0: TaskView,
)
    requires
        0 <= mark <= trail.len(),
        unwind(trail, before, mark) == Some(s0),
        undo_step(op, after) == Some(before),
    ensures
        unwind(trail.push(op), after, mark) == Some(s0),
        trail.push(op).subrange(0, mark) == trail.subrange(0, mark),
{
    assert(trail.push(op).drop_last() =~= trail);
    assert(trail.push(op).subrange(0, mark) =~= trail.subrange(0, mark));
}

/// A solved formula is satisfied by the values it holds.
pub proof fn lemma_solved_model(s: TaskView)
    requires
        s.wf(),
        s.solved(),
    ensures
        s.model(values_of(s.assignment)),
{
    let t = values_of(s.assignment);
    assert forall|j: int| 0 <= j < s.clauses.len() implies clause_holds(#[trigger] s.clauses[j], t) by {
        let c = s.clauses[j];
        assert(clause_satisfied(c, s.assignment));
        let q = choose|q: int| 0 <= q < c.len() && lit_true(#[trigger] c[q], s.assignment);
        assert(clause_ok(c, s.n_variables));
        assert(lit_ok(c[q], s.n_variables));
        lemma_lit_value(c[q], s.assignment, t);
    }
}

/// A contradicted clause leaves no model.
pub proof fn lemma_unsolvable(s: TaskView)
    requires
        s.wf(),
        !s.solvable(),
    ensures
        !s.satisfiable(),
{
    let j = choose|j: int| 0 <= j < s.clauses.len() && !clause_open(#[trigger] s.clauses[j], s.assignment);
    let c = s.clauses[j];
    assert(clause_ok(c, s.n_variables));
    assert forall|t: Seq<bool>| !#[trigger] s.model(t) by {
        if s.model(t) {
            assert(clause_holds(c, t));
            let q = choose|q: int| 0 <= q < c.len() && lit_holds(#[trigger] c[q], t);
            assert(lit_ok(c[q], s.n_variables));
            assert(lit_false(c[q], s.assignment));
            lemma_lit_value(c[q], s.assignment, t);
        }
    }
}

/// Once every variable has a value, a formula with no contradicted clause is solved.
pub proof fn lemma_assigned_solvable_solved(s: TaskView)
    requires
        s.wf(),
        all_assigned(s.assignment),
        s.solvable(),
    ensures
        s.solved(),
{
    assert forall|j: int| 0 <= j < s.clauses.len() implies clause_satisfied(#[trigger] s.clauses[j], s.assignment) by {
        let c = s.clauses[j];
        assert(clause_ok(c, s.n_variables));
        assert(clause_open(c, s.assignment));
        let q = choose|q: int| 0 <= q < c.len() && !lit_false(#[trigger] c[q], s.assignment);
        assert(lit_ok(c[q], s.n_variables));
        assert(s.assignment[var_of(c[q]) - 1] is Some);
        let b = s.assignment[var_of(c[q]) - 1]->Some_0;
        assert(b != (c[q] < 0));
        assert(b == (c[q] > 0));
        assert(lit_true(c[q], s.assignment));
        assert forall|i: int| 0 <= i < c.len() implies crate::task::lit_assigned(#[trigger] c[i], s.assignment) by {
            assert(lit_ok(c[i], s.n_variables));
        }
    }
}

/// The two branches on an unassigned variable `x`: the unit clause `{x}` with `x` true, and
/// `{-x}` with `x` false.
pub open spec fn branch(s: TaskView, x: int, value: bool) -> TaskView {
    TaskView {
        clauses: s.clauses.insert(0, seq![if value { x as isize } else { -x as isize }]),
        assignment: s.assignment.update(x - 1, Some(value)),
        ..s
    }
}

/// Each model of a branch is one of the formula, and a model of the formula lies in a branch.
pub proof fn lemma_branch(s: TaskView, x: int)
    requires
        s.wf(),
        1 <= x <= s.n_variables,
        s.assignment[x - 1] is None,
    ensures
        forall|t: Seq<bool>| #[trigger] branch(s, x, true).model(t) ==> s.model(t),
        forall|t: Seq<bool>| #[trigger] branch(s, x, false).model(t) ==> s.model(t),
        s.satisfiable() ==> branch(s, x, true).satisfiable() || branch(s, x, false).satisfiable(),
{
    assert forall|t: Seq<bool>, b: bool| #[trigger] branch(s, x, b).model(t) implies s.model(t) by {
        let u = seq![if b { x as isize } else { -x as isize }];
        lemma_holds_insert(s.clauses, 0, u, t);
        assert forall|i: int| 0 <= i < s.assignment.len() && (#[trigger] s.assignment[i]) is Some implies t[i]
            == s.assignment[i]->Some_0 by {
            assert(branch(s, x, b).assignment[i] == s.assignment[i]);
        }
    }
    assert forall|t: Seq<bool>| #[trigger] branch(s, x, true).model(t) implies s.model(t) by {
        assert(branch(s, x, true).model(t));
    }
    assert forall|t: Seq<bool>| #[trigger] branch(s, x, false).model(t) implies s.model(t) by {
        assert(branch(s, x, false).model(t));
    }
    if s.satisfiable() {
        let t = choose|t: Seq<bool>| s.model(t);
        let b = t[x - 1];
        let sb = branch(s, x, b);
        let u = seq![if b { x as isize } else { -x as isize }];
        assert(lit_holds(u[0], t));
        assert(clause_holds(u, t));
        lemma_holds_insert(s.clauses, 0, u, t);
        assert forall|i: int| 0 <= i < sb.assignment.len() && (#[trigger] sb.assignment[i]) is Some implies t[i]
            == sb.assignment[i]->Some_0 by {
            if i != x - 1 {
                assert(s.assignment[i] is Some);
            }
        }
        assert(sb.model(t));
    }
}

/// Soundness: a model of a formula gives every variable a value and makes every clause true.
pub proof fn lemma_soundness(s: TaskView, m: Seq<bool>)
    requires
        s.wf(),
        s.model(m),
    ensures
        m.len() == s.n_variables,
        forall|j: int| 0 <= j < s.clauses.len() ==> clause_holds(#[trigger] s.clauses[j], m),
{
}

/// Completeness: where a formula with no fixed value has no model, no total assignment over
/// its variables satisfies all of its clauses.
pub proof fn lemma_completeness(s: TaskView, t: Seq<bool>)
    requires
        s.wf(),
        forall|i: int| 0 <= i < s.assignment.len() ==> (#[trigger] s.assignment[i]) is None,
        !s.satisfiable(),
        t.len() == s.n_variables,
    ensures
        !formula_holds(s.clauses, t),
{
    if formula_holds(s.clauses, t) {
        assert(s.model(t));
    }
}

/// Whether literal `l` occurs in some active clause.
fn occurs_in(input: &Task, l: isize) -> (r: bool)
    requires
        input.wf(),
    ensures
        r == occurs(input@, l),
{
    let mut i: usize = 0;
    while i < input.clauses.len()
        invariant
            input.wf(),
            i <= input@.clauses.len(),
            forall|j: int| 0 <= j < i ==> !(#[trigger] input@.clauses[j]).contains(l),
        decreases input@.clauses.len() - i,
    {
        if input.clauses[i].contains(l) {
            assert(input@.clauses[i as int].contains(l));
            return true;
        }
        i += 1;
    }
    false
}

/// A DPLL search engine. Its trail logs every simplification so that it can be reverted.
pub struct DPLLSolver {
    trail: Vec<Undo>,
}

impl DPLLSolver {
    /// The logged changes, oldest first.
    pub closed spec fn trail(&self) -> Seq<Undo> {
        self.trail@
    }

    /// The trail's kept clauses cache their literal counts.
    pub closed spec fn wf(&self) -> bool {
        trail_ok(self.trail@)
    }

    /// A solver with an empty trail.
    pub fn new() -> (r: Self)
        ensures
            r.wf(),
            r.trail().len() == 0,
    {
        DPLLSolver { trail: Vec::new() }
    }

    /// Number of entries on the trail.
    pub fn trail_len(&self) -> (r: usize)
        ensures
            r == self.trail().len(),
    {
        self.trail.len()
    }

    /// A literal that forms a unit clause and is not already false, or 0 where none does.
    fn find_unit_literal(&self, input: &Task) -> (r: isize)
        requires
            input.wf(),
        ensures
            r == unit_from(input@, 0),
            r == 0 <==> !has_unit(input@),
            r != 0 ==> exists|j: int|
                0 <= j < input@.clauses.len() && #[trigger] input@.clauses[j] == seq![r] && forall|k: int|
                    0 <= k < j ==> (#[trigger] input@.clauses[k]).len() != 1,
    {
        let mut i: usize = 0;
        while i < input.clauses.len()
            invariant
                input.wf(),
                i <= input@.clauses.len(),
                unit_from(input@, 0) == unit_from(input@, i as int),
                forall|j: int| 0 <= j < i ==> (#[trigger] input@.clauses[j]).len() != 1,
            decreases input@.clauses.len() - i,
        {
            assert(clause_ok(input@.clauses[i as int], input@.n_variables));
            if input.clauses[i].n_literals == 1 {
                let literal = input.clauses[i].literals[0];
                assert(lit_ok(input@.clauses[i as int][0], input@.n_variables));
                assert(input@.clauses[i as int] =~= seq![literal]);
                return literal;
            }
            i += 1;
        }
        0
    }

    /// Propagates unit clauses until none is left. For the first clause `{l}` of exactly one
    /// literal, `l` is fixed true; each clause that holds it is dropped, and its negation is
    /// stripped from the others. Where `l` is already false, no fixed value is overwritten:
    /// its negation, already true, is propagated instead, which strips `{l}` to the empty
    /// clause that the solvability check then rejects. Every change is
    /// logged on the trail, so that `undo_to` with the trail's former length restores the
    /// formula exactly; on a formula without unit clauses (as after a first run) nothing
    /// changes. The result is `propagate` of the input, and every model of the input is one
    /// of the result.
    #[verifier::rlimit(60)]
    pub fn unit_propagation(&mut self, input: &mut Task)
        requires
            old(input).wf(),
            old(self).wf(),
        ensures
            final(input).wf(),
            final(self).wf(),
            refines(old(input)@, final(input)@),
            !has_unit(final(input)@),
            forall|j: int| 0 <= j < final(input)@.clauses.len() ==> (#[trigger] final(input)@.clauses[j]).len() != 1,
            !has_unit(old(input)@) ==> final(input)@ == old(input)@ && final(self).trail() == old(
                self,
            ).trail(),
            old(self).trail().len() <= final(self).trail().len(),
            final(self).trail().subrange(0, old(self).trail().len() as int) == old(self).trail(),
            unwind(final(self).trail(), final(input)@, old(self).trail().len() as int) == Some(
                old(input)@,
            ),
            final(input)@ == propagate(old(input)@, (total_literals(old(input)@.clauses) + 1) as nat),
            keeps_models(old(input)@, final(input)@),
    {
        let ghost pre = input@;
        let ghost mark = self.trail@.len() as int;
        let ghost mut fuel: nat = (total_literals(pre.clauses) + 1) as nat;
        proof {
            lemma_refines_refl(pre);
            assert(self.trail@.subrange(0, mark) =~= self.trail@);
        }
        loop
            invariant
                input.wf(),
                trail_ok(self.trail@),
                pre == old(input)@,
                mark == old(self).trail@.len(),
                refines(pre, input@),
                mark <= self.trail@.len(),
                self.trail@.subrange(0, mark) == old(self).trail@,
                unwind(self.trail@, input@, mark) == Some(pre),
                !has_unit(pre) ==> input@ == pre && self.trail@ == old(self).trail@,
                fuel >= total_literals(input@.clauses) + 1,
                propagate(input@, fuel) == propagate(pre, (total_literals(pre.clauses) + 1) as nat),
                keeps_models(pre, input@),
            ensures
                !has_unit(input@),
                input@ == propagate(pre, (total_literals(pre.clauses) + 1) as nat),
                keeps_models(pre, input@),
            decreases total_literals(input@.clauses),
        {
            let unit_literal = self.find_unit_literal(input);
            if unit_literal == 0 {
                break;
            }
            let ghost j = choose|j: int|
                0 <= j < input@.clauses.len() && #[trigger] input@.clauses[j] == seq![unit_literal];
            assert(has_unit(input@));
            let ghost s_outer = input@;
            assert(clause_ok(input@.clauses[j], input@.n_variables));
            assert(lit_ok(input@.clauses[j][0], input@.n_variables));
            let value = input.assignment[var_index(unit_literal)];
            let fixed = if value == Some(unit_literal < 0) {
                -unit_literal
            } else {
                unit_literal
            };
            assert(fixed == forced_literal(s_outer, unit_literal));
            let ghost a_fixed = s_outer.assignment.update(var_of(fixed) - 1, Some(fixed > 0));
            proof {
                if fixed == unit_literal {
                    lemma_assign_unit(input@, j, unit_literal);
                } else {
                    assert(a_fixed =~= s_outer.assignment);
                    assert((TaskView { assignment: a_fixed, ..s_outer }) == s_outer);
                    lemma_refines_refl(s_outer);
                }
            }
            let v = var_index(fixed) + 1;
            let prev = input.assignment[v - 1];
            input.assign_literal(v, Some(fixed > 0));
            proof {
                lemma_refines_trans(pre, s_outer, input@);
                lemma_keeps_trans(pre, s_outer, input@);
                assert(input@.assignment.update(v - 1, prev) =~= s_outer.assignment);
                lemma_unwind_push(self.trail@, Undo::Assigned(v, prev), mark, s_outer, input@, pre);
            }
            self.trail.push(Undo::Assigned(v, prev));
            let ghost c0 = s_outer.clauses;
            let ghost a1 = input@.assignment;
            let ghost mut k: int = 0;
            proof {
                assert(c0.subrange(0, 0) =~= Seq::<Seq<isize>>::empty());
                assert(input@.clauses =~= after_unit(c0.subrange(0, 0), unit_literal) + c0.subrange(0, c0.len() as int));
            }
            let negated = -fixed;
            let mut i: usize = 0;
            while i < input.n_clauses
                invariant
                    input.wf(),
                    trail_ok(self.trail@),
                    pre == old(input)@,
                    mark == old(self).trail@.len(),
                    has_unit(pre),
                    negated == -fixed,
                    lit_ok(fixed, input@.n_variables),
                    lit_true(fixed, input@.assignment),
                    refines(pre, input@),
                    mark <= self.trail@.len(),
                    self.trail@.subrange(0, mark) == old(self).trail@,
                    unwind(self.trail@, input@, mark) == Some(pre),
                    i <= input@.clauses.len(),
                    0 <= k <= c0.len(),
                    c0 == s_outer.clauses,
                    input@.n_variables == s_outer.n_variables,
                    input@.assignment == a1,
                    a1 == s_outer.assignment.update(var_of(fixed) - 1, Some(fixed > 0)),
                    i == after_unit(c0.subrange(0, k), fixed).len(),
                    input@.clauses == after_unit(c0.subrange(0, k), fixed) + c0.subrange(k, c0.len() as int),
                    keeps_models(pre, input@),
                decreases input@.clauses.len() - i,
            {
                let ghost before = input@;
                proof {
                    assert(before.clauses[i as int] == c0[k]);
                    assert(c0.subrange(0, k + 1).drop_last() =~= c0.subrange(0, k));
                    assert(c0.subrange(0, k + 1).last() == c0[k]);
                }
                if input.clauses[i].contains(fixed) {
                    proof {
                        lemma_drop_true_clause(before, i as int, fixed);
                    }
                    let clause = input.remove_nth_clause(i);
                    proof {
                        lemma_refines_trans(pre, before, input@);
                        assert(input@.clauses.insert(i as int, clause@) =~= before.clauses);
                        lemma_unwind_push(
                            self.trail@,
                            Undo::RemovedClause(i, clause),
                            mark,
                            before,
                            input@,
                            pre,
                        );
                        lemma_keeps_trans(pre, before, input@);
                        assert(input@.clauses =~= after_unit(c0.subrange(0, k + 1), fixed) + c0.subrange(k + 1, c0.len() as int));
                        k = k + 1;
                    }
                    self.trail.push(Undo::RemovedClause(i, clause));
                } else {
                    match input.clauses[i].position_of(negated) {
                        Some(p) => {
                            proof {
                                assert(lit_false(before.clauses[i as int][p as int], before.assignment));
                                lemma_strip_false_literal(before, i as int, p as int);
                            }
                            input.clauses[i].remove_literal(negated);
                            proof {
                                let c = before.clauses[i as int];
                                lemma_remove_keeps_distinct(c, p as int);
                                assert(input@.clauses =~= before.clauses.update(
                                    i as int,
                                    c.remove(p as int),
                                ));
                                lemma_refines_trans(pre, before, input@);
                                lemma_keeps_trans(pre, before, input@);
                                assert(clause_ok(c, before.n_variables));
                                lemma_strip_at(c, p as int);
                                assert(input@.clauses[i as int].insert(p as int, negated) =~= c);
                                assert(input@.clauses.update(
                                    i as int,
                                    input@.clauses[i as int].insert(p as int, negated),
                                ) =~= before.clauses);
                                lemma_unwind_push(
                                    self.trail@,
                                    Undo::StrippedLiteral(i, p, negated),
                                    mark,
                                    before,
                                    input@,
                                    pre,
                                );
                            }
                            self.trail.push(Undo::StrippedLiteral(i, p, negated));
                        },
                        None => {
                            proof {
                                lemma_strip_absent(c0[k], negated);
                            }
                        },
                    }
                    proof {
                        assert(input@.clauses =~= after_unit(c0.subrange(0, k + 1), fixed) + c0.subrange(k + 1, c0.len() as int));
                        k = k + 1;
                    }
                    i += 1;
                }
            }
            proof {
                assert(c0.subrange(0, c0.len() as int) =~= c0);
                assert(input@.clauses =~= after_unit(c0, fixed));
                assert(input@ == unit_step(s_outer, fixed));
                assert(c0[j] == seq![unit_literal]);
                assert(unit_literal == fixed || unit_literal == (-fixed) as isize);
                lemma_after_unit_shrinks(c0, fixed, j);
                fuel = (fuel - 1) as nat;
            }
        }
    }

    /// The least pure variable, as the literal that is true where it is set (positive unless
    /// only its negation occurs), or 0 where no unassigned variable is pure.
    fn find_pure_literal(&self, input: &Task) -> (r: isize)
        requires
            input.wf(),
        ensures
            r == pure_from(input@, 1),
            r == 0 <==> !has_pure(input@),
            r != 0 ==> {
                &&& lit_ok(r, input@.n_variables)
                &&& is_pure(input@, var_of(r))
                &&& forall|w: int| 1 <= w < var_of(r) ==> !#[trigger] is_pure(input@, w)
                &&& (r > 0 <==> !occurs(input@, -var_of(r) as isize))
            },
    {
        let mut k: usize = 1;
        while k <= input.n_variables
            invariant
                input.wf(),
                1 <= k <= input@.n_variables + 1,
                pure_from(input@, 1) == pure_from(input@, k as int),
                forall|w: int| 1 <= w < k ==> !#[trigger] is_pure(input@, w),
            decreases input@.n_variables + 1 - k,
        {
            if input.assignment[k - 1].is_none() {
                let literal = k as isize;
                let positive = occurs_in(input, literal);
                let negative = occurs_in(input, -literal);
                if !negative {
                    assert(is_pure(input@, k as int));
                    return literal;
                } else if !positive {
                    assert(is_pure(input@, k as int));
                    return -literal;
                }
            }
            k += 1;
        }
        assert forall|v: int| !#[trigger] is_pure(input@, v) by {
            if 1 <= v < k {
            }
        }
        0
    }

    /// Fixes pure variables until none is left, lowest first, dropping every clause that the
    /// fixed literal satisfies. Every change is logged on the trail, so that `undo_to` with
    /// the trail's former length restores the formula exactly; on a formula without pure
    /// variables (as after a first run) nothing changes. The result is `purify` of the input.
    pub fn pure_literal_removal(&mut self, input: &mut Task)
        requires
            old(input).wf(),
            old(self).wf(),
        ensures
            final(input).wf(),
            final(self).wf(),
            refines(old(input)@, final(input)@),
            !has_pure(final(input)@),
            !has_pure(old(input)@) ==> final(input)@ == old(input)@ && final(self).trail() == old(
                self,
            ).trail(),
            old(self).trail().len() <= final(self).trail().len(),
            final(self).trail().subrange(0, old(self).trail().len() as int) == old(self).trail(),
            unwind(final(self).trail(), final(input)@, old(self).trail().len() as int) == Some(
                old(input)@,
            ),
            final(input)@ == purify(old(input)@, (n_unassigned(old(input)@.assignment) + 1) as nat),
    {
        let ghost pre = input@;
        let ghost mark = self.trail@.len() as int;
        let ghost mut fuel: nat = (n_unassigned(pre.assignment) + 1) as nat;
        proof {
            lemma_refines_refl(pre);
            assert(self.trail@.subrange(0, mark) =~= self.trail@);
        }
        loop
            invariant
                input.wf(),
                trail_ok(self.trail@),
                pre == old(input)@,
                mark == old(self).trail@.len(),
                refines(pre, input@),
                mark <= self.trail@.len(),
                self.trail@.subrange(0, mark) == old(self).trail@,
                unwind(self.trail@, input@, mark) == Some(pre),
                !has_pure(pre) ==> input@ == pre && self.trail@ == old(self).trail@,
                fuel >= n_unassigned(input@.assignment) + 1,
                purify(input@, fuel) == purify(pre, (n_unassigned(pre.assignment) + 1) as nat),
            ensures
                !has_pure(input@),
                input@ == purify(pre, (n_unassigned(pre.assignment) + 1) as nat),
            decreases n_unassigned(input@.assignment),
        {
            let pure_literal = self.find_pure_literal(input);
            if pure_literal == 0 {
                break;
            }
            let ghost s_outer = input@;
            proof {
                let v = var_of(pure_literal);
                assert(has_pure(input@));
                if pure_literal < 0 {
                    assert((-pure_literal) as isize == v as isize);
                }
                lemma_assign_pure(input@, pure_literal);
                lemma_unassign_decreases(input@.assignment, v - 1, pure_literal > 0);
            }
            let v = var_index(pure_literal) + 1;
            let prev = input.assignment[v - 1];
            input.assign_literal(v, Some(pure_literal > 0));
            proof {
                lemma_refines_trans(pre, s_outer, input@);
                assert(input@.assignment.update(v - 1, prev) =~= s_outer.assignment);
                lemma_unwind_push(self.trail@, Undo::Assigned(v, prev), mark, s_outer, input@, pre);
            }
            self.trail.push(Undo::Assigned(v, prev));
            let ghost a_after = input@.assignment;
            let ghost c0 = s_outer.clauses;
            let ghost mut k: int = 0;
            proof {
                assert(c0.subrange(0, 0) =~= Seq::<Seq<isize>>::empty());
                assert(input@.clauses =~= after_pure(c0.subrange(0, 0), pure_literal) + c0.subrange(0, c0.len() as int));
            }
            let mut i: usize = 0;
            while i < input.n_clauses
                invariant
                    input.wf(),
                    trail_ok(self.trail@),
                    pre == old(input)@,
                    mark == old(self).trail@.len(),
                    has_pure(pre),
                    input@.assignment == a_after,
                    lit_ok(pure_literal, input@.n_variables),
                    lit_true(pure_literal, input@.assignment),
                    refines(pre, input@),
                    mark <= self.trail@.len(),
                    self.trail@.subrange(0, mark) == old(self).trail@,
                    unwind(self.trail@, input@, mark) == Some(pre),
                    i <= input@.clauses.len(),
                    0 <= k <= c0.len(),
                    c0 == s_outer.clauses,
                    input@.n_variables == s_outer.n_variables,
                    a_after == s_outer.assignment.update(var_of(pure_literal) - 1, Some(pure_literal > 0)),
                    i == after_pure(c0.subrange(0, k), pure_literal).len(),
                    input@.clauses == after_pure(c0.subrange(0, k), pure_literal) + c0.subrange(k, c0.len() as int),
                decreases input@.clauses.len() - i,
            {
                let ghost before = input@;
                proof {
                    assert(before.clauses[i as int] == c0[k]);
                    assert(c0.subrange(0, k + 1).drop_last() =~= c0.subrange(0, k));
                    assert(c0.subrange(0, k + 1).last() == c0[k]);
                }
                if input.clauses[i].contains(pure_literal) {
                    proof {
                        lemma_drop_true_clause(before, i as int, pure_literal);
                    }
                    let clause = input.remove_nth_clause(i);
                    proof {
                        lemma_refines_trans(pre, before, input@);
                        assert(input@.clauses.insert(i as int, clause@) =~= before.clauses);
                        lemma_unwind_push(
                            self.trail@,
                            Undo::RemovedClause(i, clause),
                            mark,
                            before,
                            input@,
                            pre,
                        );
                        assert(input@.clauses =~= after_pure(c0.subrange(0, k + 1), pure_literal) + c0.subrange(k + 1, c0.len() as int));
                        k = k + 1;
                    }
                    self.trail.push(Undo::RemovedClause(i, clause));
                } else {
                    proof {
                        assert(input@.clauses =~= after_pure(c0.subrange(0, k + 1), pure_literal) + c0.subrange(k + 1, c0.len() as int));
                        k = k + 1;
                    }
                    i += 1;
                }
            }
            proof {
                assert(c0.subrange(0, c0.len() as int) =~= c0);
                assert(input@.clauses =~= after_pure(c0, pure_literal));
                assert(input@ == pure_step(s_outer, pure_literal));
                fuel = (fuel - 1) as nat;
            }
        }
    }

    /// Gives every unassigned variable the value true. Every change is logged on the trail.
    fn fill_remaining_true(&mut self, input: &mut Task)
        requires
            old(input).wf(),
            old(self).wf(),
        ensures
            final(input).wf(),
            final(self).wf(),
            final(input)@.n_variables == old(input)@.n_variables,
            final(input)@.clauses == old(input)@.clauses,
            final(input)@.assignment.len() == old(input)@.assignment.len(),
            forall|i: int|
                0 <= i < old(input)@.assignment.len() ==> #[trigger] final(input)@.assignment[i] == if old(
                    input,
                )@.assignment[i] is Some {
                    old(input)@.assignment[i]
                } else {
                    Some(true)
                },
            old(self).trail().len() <= final(self).trail().len(),
            final(self).trail().subrange(0, old(self).trail().len() as int) == old(self).trail(),
            unwind(final(self).trail(), final(input)@, old(self).trail().len() as int) == Some(
                old(input)@,
            ),
    {
        let ghost pre = input@;
        let ghost mark = self.trail@.len() as int;
        proof {
            assert(self.trail@.subrange(0, mark) =~= self.trail@);
        }
        let mut k: usize = 0;
        while k < input.assignment.len()
            invariant
                input.wf(),
                trail_ok(self.trail@),
                pre == old(input)@,
                mark == old(self).trail@.len(),
                k <= input@.assignment.len(),
                input@.n_variables == pre.n_variables,
                input@.clauses == pre.clauses,
                input@.assignment.len() == pre.assignment.len(),
                forall|i: int|
                    0 <= i < pre.assignment.len() ==> #[trigger] input@.assignment[i] == if i < k
                        && pre.assignment[i] is None {
                        Some(true)
                    } else {
                        pre.assignment[i]
                    },
                mark <= self.trail@.len(),
                self.trail@.subrange(0, mark) == old(self).trail@,
                unwind(self.trail@, input@, mark) == Some(pre),
            decreases input@.assignment.len() - k,
        {
            if input.assignment[k].is_none() {
                let ghost before = input@;
                let v = k + 1;
                input.assign_literal(v, Some(true));
                proof {
                    assert(input@.assignment.update(k as int, None) =~= before.assignment);
                    lemma_unwind_push(self.trail@, Undo::Assigned(v, None), mark, before, input@, pre);
                }
                self.trail.push(Undo::Assigned(v, None));
            }
            k += 1;
        }
    }

    /// The satisfying assignment that the formula's values give.
    fn return_sat_assignment(&self, input: &Task) -> (r: TaskResult<'static>)
        requires
            input.wf(),
            all_assigned(input@.assignment),
        ensures
            r == TaskResult::SAT(r->SAT_0),
            r->SAT_0@ == values_of(input@.assignment),
    {
        let mut values: Vec<bool> = Vec::new();
        let mut k: usize = 0;
        while k < input.assignment.len()
            invariant
                input.wf(),
                all_assigned(input@.assignment),
                k <= input@.assignment.len(),
                values@ == values_of(input@.assignment).subrange(0, k as int),
            decreases input@.assignment.len() - k,
        {
            let value = input.assignment[k];
            match value {
                Some(b) => values.push(b),
                None => {},
            }
            k += 1;
            assert(values@ =~= values_of(input@.assignment).subrange(0, k as int));
        }
        assert(values@ =~= values_of(input@.assignment));
        TaskResult::SAT(values)
    }

    /// Searches for an assignment that satisfies `input`, branching on the variables from
    /// `chosen_lit` upwards (all those below it are assigned already). The formula and the
    /// trail are as they were when the search returns: `SAT` holds a model of the formula (a
    /// total assignment that keeps its fixed values and satisfies every clause), and `UNSAT`
    /// comes only where no model exists. A formula without clauses comes back `SAT` with its
    /// fixed values kept and every other variable true.
    pub fn solve(&mut self, input: &mut Task, chosen_lit: usize) -> (r: TaskResult<'static>)
        requires
            old(input).wf(),
            old(self).wf(),
            1 <= chosen_lit,
            forall|i: int|
                0 <= i < chosen_lit - 1 && i < old(input)@.n_variables ==> (#[trigger] old(
                    input,
                )@.assignment[i]) is Some,
        ensures
            final(input)@ == old(input)@,
            final(input).wf(),
            final(self).wf(),
            final(self).trail() == old(self).trail(),
            match r {
                TaskResult::SAT(m) => old(input)@.model(m@),
                TaskResult::UNSAT(_) => !old(input)@.satisfiable(),
                TaskResult::UNKNOWN => false,
            },
            old(input)@.clauses.len() == 0 ==> r == TaskResult::SAT(r->SAT_0) && r->SAT_0@ == filled_true(
                old(input)@.assignment,
            ),
        decreases old(input)@.n_variables + 1 - chosen_lit,
    {
        let ghost s0 = input@;
        let ghost t0 = self.trail@;
        if input.is_solved() {
            proof {
                lemma_solved_model(s0);
                assert(values_of(s0.assignment) =~= filled_true(s0.assignment));
            }
            return self.return_sat_assignment(input);
        }
        if !input.is_solvable() || chosen_lit > input.n_variables {
            proof {
                if s0.solvable() {
                    lemma_assigned_solvable_solved(s0);
                } else {
                    lemma_unsolvable(s0);
                }
            }
            return TaskResult::UNSAT("unsatisfiable");
        }
        let mark = self.trail.len();
        self.unit_propagation(input);
        let ghost s1 = input@;
        if !input.is_solvable() {
            proof {
                lemma_unsolvable(s1);
            }
            self.undo_to(input, mark);
            proof {
                assert(self.trail@ =~= t0);
            }
            return TaskResult::UNSAT("unsatisfiable");
        }
        let mark1 = self.trail.len();
        let ghost t1 = self.trail@;
        self.pure_literal_removal(input);
        let ghost s2 = input@;
        let ghost t2 = self.trail@;
        proof {
            if s0.clauses.len() == 0 {
                lemma_purify_no_clauses(s1, (n_unassigned(s1.assignment) + 1) as nat);
            }
            lemma_refines_trans(s0, s1, s2);
            lemma_unwind_compose(t2, mark1 as int, mark as int, s2, s1, s0);
            assert(t2.subrange(0, mark as int) =~= t0);
        }
        if input.n_clauses == 0 {
            let mark2 = self.trail.len();
            self.fill_remaining_true(input);
            let ghost s3 = input@;
            proof {
                lemma_unwind_compose(self.trail@, mark2 as int, mark as int, s3, s2, s0);
                assert(self.trail@.subrange(0, mark as int) =~= t0);
                assert(all_assigned(s3.assignment));
                let m = values_of(s3.assignment);
                assert forall|i: int| 0 <= i < s2.assignment.len() && (#[trigger] s2.assignment[i]) is Some implies m[i]
                    == s2.assignment[i]->Some_0 by {
                    assert(s3.assignment[i] == s2.assignment[i]);
                }
                assert(s2.model(m));
                if s0.clauses.len() == 0 {
                    assert(m =~= filled_true(s0.assignment));
                }
            }
            let r = self.return_sat_assignment(input);
            self.undo_to(input, mark);
            return r;
        }
        proof {
            assert forall|i: int| 0 <= i < chosen_lit - 1 && i < s2.n_variables implies (
            #[trigger] s2.assignment[i]) is Some by {
                assert(s0.assignment[i] is Some);
            }
        }
        if input.assignment[chosen_lit - 1].is_some() {
            let r = self.solve(input, chosen_lit + 1);
            self.undo_to(input, mark);
            return r;
        }
        proof {
            lemma_branch(s2, chosen_lit as int);
        }
        input.assign_literal(chosen_lit, Some(true));
        let mut unit = Clause::empty();
        unit.add_literal(chosen_lit as isize);
        input.add_clause(unit);
        proof {
            assert(input@ == branch(s2, chosen_lit as int, true));
        }
        let r = self.solve(input, chosen_lit + 1);
        let _ = input.remove_nth_clause(0);
        input.assign_literal(chosen_lit, None);
        proof {
            assert(input@.clauses =~= s2.clauses);
            assert(input@.assignment =~= s2.assignment);
        }
        if let TaskResult::SAT(_) = r {
            self.undo_to(input, mark);
            return r;
        }
        input.assign_literal(chosen_lit, Some(false));
        let mut unit = Clause::empty();
        unit.add_literal(-(chosen_lit as isize));
        input.add_clause(unit);
        proof {
            assert(input@ == branch(s2, chosen_lit as int, false));
        }
        let r2 = self.solve(input, chosen_lit + 1);
        let _ = input.remove_nth_clause(0);
        input.assign_literal(chosen_lit, None);
        proof {
            assert(input@.clauses =~= s2.clauses);
            assert(input@.assignment =~= s2.assignment);
        }
        self.undo_to(input, mark);
        r2
    }

    /// Reverts, newest first, every trail entry at or above `mark`.
    pub fn undo_to(&mut self, input: &mut Task, mark: usize)
        requires
            old(self).wf(),
            mark <= old(self).trail().len(),
            old(input).n_clauses == old(input).clauses.len(),
            counts_ok(old(input).clauses@),
            unwind(old(self).trail(), old(input)@, mark as int) is Some,
        ensures
            final(self).wf(),
            final(self).trail() == old(self).trail().subrange(0, mark as int),
            final(input)@ == unwind(old(self).trail(), old(input)@, mark as int)->Some_0,
            final(input).n_clauses == final(input).clauses.len(),
            counts_ok(final(input).clauses@),
    {
        let ghost target = unwind(self.trail@, input@, mark as int)->Some_0;
        while self.trail.len() > mark
            invariant
                trail_ok(self.trail@),
                mark <= self.trail@.len() <= old(self).trail@.len(),
                self.trail@ == old(self).trail@.subrange(0, self.trail@.len() as int),
                input.n_clauses == input.clauses.len(),
                counts_ok(input.clauses@),
                unwind(self.trail@, input@, mark as int) == Some(target),
            decreases self.trail@.len(),
        {
            let ghost before = input@;
            let ghost tr = self.trail@;
            let op = self.trail.pop().unwrap();
            assert(op == tr.last());
            assert(self.trail@ =~= tr.drop_last());
            assert(tr[tr.len() - 1] == op);
            match op {
                Undo::Assigned(v, prev) => {
                    input.assignment.set(v - 1, prev);
                    assert(input@.clauses =~= before.clauses);
                },
                Undo::RemovedClause(i, c) => {
                    input.clauses.insert(i, c);
                    input.n_clauses = input.clauses.len();
                    assert(input@.clauses =~= before.clauses.insert(i as int, c@));
                },
                Undo::StrippedLiteral(i, p, l) => {
                    input.clauses[i].restore_literal(p, l);
                    assert(input@.clauses =~= before.clauses.update(
                        i as int,
                        before.clauses[i as int].insert(p as int, l),
                    ));
                },
            }
            assert(self.trail@ == old(self).trail@.subrange(0, self.trail@.len() as int));
        }
        assert(self.trail@ =~= old(self).trail@.subrange(0, mark as int));
    }
}

} // verus!
