use vstd::prelude::*;

verus! {

/// The variable that a literal speaks of (its magnitude).
pub open spec fn var_of(l: isize) -> int {
    if l < 0 {
        -l
    } else {
        l as int
    }
}

/// A literal names a variable among `1..=n`.
pub open spec fn lit_ok(l: isize, n: nat) -> bool {
    l != 0 && var_of(l) <= n && var_of(l) <= isize::MAX
}

/// A clause over `n` variables: distinct literals, each in range.
pub open spec fn clause_ok(c: Seq<isize>, n: nat) -> bool {
    &&& c.no_duplicates()
    &&& forall|i: int| 0 <= i < c.len() ==> lit_ok(#[trigger] c[i], n)
}

/// The value of literal `l` under a total assignment (variable `v` at index `v - 1`).
pub open spec fn lit_holds(l: isize, t: Seq<bool>) -> bool {
    if l > 0 {
        t[l - 1]
    } else {
        !t[-l - 1]
    }
}

/// Under a partial assignment, `l`'s variable has a value.
pub open spec fn lit_assigned(l: isize, a: Seq<Option<bool>>) -> bool {
    a[var_of(l) - 1] is Some
}

/// Under a partial assignment, `l` is already true.
pub open spec fn lit_true(l: isize, a: Seq<Option<bool>>) -> bool {
    a[var_of(l) - 1] == Some(l > 0)
}

/// Under a partial assignment, `l` is already false.
pub open spec fn lit_false(l: isize, a: Seq<Option<bool>>) -> bool {
    a[var_of(l) - 1] == Some(l < 0)
}

/// A total assignment makes some literal of the clause true.
pub open spec fn clause_holds(c: Seq<isize>, t: Seq<bool>) -> bool {
    exists|i: int| 0 <= i < c.len() && lit_holds(#[trigger] c[i], t)
}

/// A total assignment makes every clause true.
pub open spec fn formula_holds(cs: Seq<Seq<isize>>, t: Seq<bool>) -> bool {
    forall|j: int| 0 <= j < cs.len() ==> clause_holds(#[trigger] cs[j], t)
}

/// A total assignment agrees with every value that a partial one fixes.
pub open spec fn extends(t: Seq<bool>, a: Seq<Option<bool>>) -> bool {
    &&& t.len() == a.len()
    &&& forall|i: int| 0 <= i < a.len() && (#[trigger] a[i]) is Some ==> t[i] == a[i]->Some_0
}

/// Final satisfaction: every literal's variable is assigned and one literal is true.
pub open spec fn clause_satisfied(c: Seq<isize>, a: Seq<Option<bool>>) -> bool {
    &&& forall|i: int| 0 <= i < c.len() ==> lit_assigned(#[trigger] c[i], a)
    &&& exists|i: int| 0 <= i < c.len() && lit_true(#[trigger] c[i], a)
}

/// The clause is not yet contradicted: some literal is true or unassigned.
pub open spec fn clause_open(c: Seq<isize>, a: Seq<Option<bool>>) -> bool {
    exists|i: int| 0 <= i < c.len() && !lit_false(#[trigger] c[i], a)
}

/// Every variable has a value.
pub open spec fn all_assigned(a: Seq<Option<bool>>) -> bool {
    forall|i: int| 0 <= i < a.len() ==> (#[trigger] a[i]) is Some
}

/// The elements of `s` in order, each kept at its first occurrence only.
pub open spec fn first_occurrences(s: Seq<isize>) -> Seq<isize>
    decreases s.len(),
{
    if s.len() == 0 {
        Seq::empty()
    } else {
        let d = first_occurrences(s.drop_last());
        if d.contains(s.last()) {
            d
        } else {
            d.push(s.last())
        }
    }
}

/// Each element kept by `first_occurrences` is an element of the original sequence.
pub proof fn lemma_first_occurrences_from(s: Seq<isize>)
    ensures
        forall|x: isize| #[trigger] first_occurrences(s).contains(x) ==> s.contains(x),
    decreases s.len(),
{
    if s.len() > 0 {
        lemma_first_occurrences_from(s.drop_last());
        assert forall|x: isize| #[trigger] first_occurrences(s).contains(x) implies s.contains(x) by {
            if first_occurrences(s.drop_last()).contains(x) {
                let k = choose|k: int| 0 <= k < s.drop_last().len() && s.drop_last()[k] == x;
                assert(s[k] == x);
            } else {
                assert(s[s.len() - 1] == x);
            }
        }
    }
}

/// A disjunction of distinct literals.
#[derive(Debug, Clone)]
pub struct Clause {
    pub literals: Vec<isize>,
    pub n_literals: usize,
}

impl View for Clause {
    type V = Seq<isize>;

    open spec fn view(&self) -> Seq<isize> {
        self.literals@
    }
}

/// Index of a literal's variable in an assignment vector.
pub fn var_index(l: isize) -> (r: usize)
    requires
        l != 0,
        var_of(l) <= isize::MAX,
    ensures
        r == var_of(l) - 1,
{
    if l < 0 {
        (-l - 1) as usize
    } else {
        (l - 1) as usize
    }
}

impl Clause {
    /// The literal count is cached and the literals are distinct.
    pub open spec fn wf(&self) -> bool {
        &&& self.n_literals == self.literals.len()
        &&& self.literals@.no_duplicates()
    }

    pub fn empty() -> (r: Clause)
        ensures
            r.wf(),
            r@ == Seq::<isize>::empty(),
    {
        Clause { literals: Vec::new(), n_literals: 0 }
    }

    /// A clause holding exactly the given distinct literals, in order.
    pub fn from_set(literal_set: Vec<isize>) -> (r: Clause)
        requires
            literal_set@.no_duplicates(),
        ensures
            r.wf(),
            r@ == literal_set@,
    {
        Clause { n_literals: literal_set.len(), literals: literal_set }
    }

    /// A clause holding the given literals, each once, in the order of first occurrence.
    pub fn from_literal_iter(iter: Vec<isize>) -> (r: Clause)
        ensures
            r.wf(),
            r@ == first_occurrences(iter@),
    {
        let mut clause = Clause::empty();
        let mut i: usize = 0;
        while i < iter.len()
            invariant
                i <= iter@.len(),
                clause.wf(),
                clause@ == first_occurrences(iter@.subrange(0, i as int)),
            decreases iter@.len() - i,
        {
            let literal = iter[i];
            proof {
                assert(iter@.subrange(0, i + 1).drop_last() =~= iter@.subrange(0, i as int));
            }
            if !clause.contains(literal) {
                clause.add_literal(literal);
            }
            i += 1;
        }
        assert(iter@.subrange(0, iter@.len() as int) =~= iter@);
        clause
    }

    /// Position of `l` in the clause, if it occurs.
    pub fn position_of(&self, l: isize) -> (r: Option<usize>)
        ensures
            match r {
                Some(p) => p < self@.len() && self@[p as int] == l,
                None => !self@.contains(l),
            },
    {
        let mut i: usize = 0;
        while i < self.literals.len()
            invariant
                i <= self@.len(),
                forall|k: int| 0 <= k < i ==> self@[k] != l,
            decreases self@.len() - i,
        {
            if self.literals[i] == l {
                return Some(i);
            }
            i += 1;
        }
        None
    }

    pub fn contains(&self, l: isize) -> (r: bool)
        ensures
            r == self@.contains(l),
    {
        self.position_of(l).is_some()
    }

    /// True only when every literal's variable is assigned and some literal is true.
    pub fn is_satisfied(&self, assignment: &Vec<Option<bool>>) -> (r: bool)
        requires
            self.wf(),
            clause_ok(self@, assignment@.len()),
        ensures
            r == clause_satisfied(self@, assignment@),
    {
        self.get_satisfiability(assignment, true)
    }

    /// True when some literal is true or still unassigned.
    pub fn can_be_satisfied(&self, assignment: &Vec<Option<bool>>) -> (r: bool)
        requires
            self.wf(),
            clause_ok(self@, assignment@.len()),
        ensures
            r == clause_open(self@, assignment@),
    {
        self.get_satisfiability(assignment, false)
    }

    fn get_satisfiability(&self, assignment: &Vec<Option<bool>>, is_final: bool) -> (r: bool)
        requires
            self.wf(),
            clause_ok(self@, assignment@.len()),
        ensures
            is_final ==> r == clause_satisfied(self@, assignment@),
            !is_final ==> r == clause_open(self@, assignment@),
    {
        let a = Ghost(assignment@);
        if self.n_literals == 0 {
            return false;
        }
        let mut any_satisfied_found = false;
        let mut i: usize = 0;
        while i < self.literals.len()
            invariant
                self.wf(),
                clause_ok(self@, a@.len()),
                a@ == assignment@,
                i <= self@.len(),
                forall|k: int| 0 <= k < i ==> lit_assigned(#[trigger] self@[k], a@),
                any_satisfied_found == exists|k: int| 0 <= k < i && lit_true(#[trigger] self@[k], a@),
            decreases self@.len() - i,
        {
            let literal = self.literals[i];
            assert(lit_ok(self@[i as int], a@.len()));
            let value = assignment[var_index(literal)];
            match value {
                None => {
                    assert(!lit_assigned(self@[i as int], a@));
                    assert(!lit_false(self@[i as int], a@));
                    return !is_final;
                },
                Some(b) => {
                    if b == (literal > 0) {
                        any_satisfied_found = true;
                    }
                },
            }
            assert(lit_assigned(self@[i as int], a@));
            i += 1;
        }
        if !is_final && !any_satisfied_found {
            assert forall|k: int| 0 <= k < self@.len() implies lit_false(#[trigger] self@[k], a@) by {
                assert(lit_ok(self@[k], a@.len()));
                let l = self@[k];
                assert(lit_assigned(l, a@));
                assert(!lit_true(l, a@));
                let b = a@[var_of(l) - 1]->Some_0;
                assert(b != (l > 0));
                assert(b == (l < 0));
            }
        }
        any_satisfied_found
    }

    /// Drops `literal` from the clause.
    pub fn remove_literal(&mut self, literal: isize)
        requires
            old(self).wf(),
            old(self)@.contains(literal),
        ensures
            final(self).wf(),
            forall|p: int|
                0 <= p < old(self)@.len() && #[trigger] old(self)@[p] == literal ==> final(self)@
                    == old(self)@.remove(p),
    {
        let pos = self.position_of(literal);
        match pos {
            Some(p) => {
                self.literals.remove(p);
                self.n_literals = self.n_literals - 1;
                proof {
                    lemma_remove_keeps_distinct(old(self)@, p as int);
                }
            },
            None => {},
        }
    }

    /// Puts `literal` back into the clause, after its other literals.
    pub fn add_literal(&mut self, literal: isize)
        requires
            old(self).wf(),
            !old(self)@.contains(literal),
        ensures
            final(self).wf(),
            final(self)@ == old(self)@.push(literal),
    {
        self.literals.push(literal);
        self.n_literals = self.literals.len();
        assert(self@.no_duplicates()) by {
            assert forall|i: int, j: int|
                0 <= i < self@.len() && 0 <= j < self@.len() && i != j implies self@[i]
                != self@[j] by {
                if i < old(self)@.len() && j < old(self)@.len() {
                    assert(old(self)@[i] != old(self)@[j]);
                } else if i < old(self)@.len() {
                    assert(old(self)@.contains(self@[i]));
                } else {
                    assert(old(self)@.contains(self@[j]));
                }
            }
        }
    }

    /// Puts `literal` back at position `pos`, where it was stripped from.
    pub fn restore_literal(&mut self, pos: usize, literal: isize)
        requires
            old(self).n_literals == old(self).literals.len(),
            pos <= old(self)@.len(),
        ensures
            final(self).n_literals == final(self).literals.len(),
            final(self)@ == old(self)@.insert(pos as int, literal),
    {
        self.literals.insert(pos, literal);
        self.n_literals = self.literals.len();
    }
}

/// Removing an element keeps a sequence free of duplicates.
pub proof fn lemma_remove_keeps_distinct(s: Seq<isize>, p: int)
    requires
        s.no_duplicates(),
        0 <= p < s.len(),
    ensures
        s.remove(p).no_duplicates(),
        forall|q: int| 0 <= q < s.len() && s[q] == s[p] ==> q == p,
{
    let r = s.remove(p);
    assert forall|i: int, j: int| 0 <= i < r.len() && 0 <= j < r.len() && i != j implies r[i]
        != r[j] by {
        let si = if i < p {
            i
        } else {
            i + 1
        };
        let sj = if j < p {
            j
        } else {
            j + 1
        };
        assert(r[i] == s[si] && r[j] == s[sj]);
    }
}


/// The mathematical content of a formula: its variable count, its active clauses and its
/// partial assignment (variable `v` at index `v - 1`).
pub ghost struct TaskView {
    pub n_variables: nat,
    pub clauses: Seq<Seq<isize>>,
    pub assignment: Seq<Option<bool>>,
}

impl TaskView {
    /// Every clause is over the variables `1..=n_variables`, and each variable has an entry.
    pub open spec fn wf(self) -> bool {
        &&& self.n_variables < isize::MAX
        &&& self.assignment.len() == self.n_variables
        &&& forall|j: int| 0 <= j < self.clauses.len() ==> clause_ok(#[trigger] self.clauses[j], self.n_variables)
    }

    /// `t` is a total assignment that extends this one and satisfies every clause.
    pub open spec fn model(self, t: Seq<bool>) -> bool {
        extends(t, self.assignment) && formula_holds(self.clauses, t)
    }

    /// Some total extension of the assignment satisfies every clause.
    pub open spec fn satisfiable(self) -> bool {
        exists|t: Seq<bool>| self.model(t)
    }

    /// Every clause is finally satisfied and every variable has a value.
    pub open spec fn solved(self) -> bool {
        &&& forall|j: int| 0 <= j < self.clauses.len() ==> clause_satisfied(#[trigger] self.clauses[j], self.assignment)
        &&& all_assigned(self.assignment)
    }

    /// No clause is contradicted yet.
    pub open spec fn solvable(self) -> bool {
        forall|j: int| 0 <= j < self.clauses.len() ==> clause_open(#[trigger] self.clauses[j], self.assignment)
    }
}

/// A formula under search: variable count, active clauses and partial assignment.
#[derive(Debug, Clone)]
pub struct Task {
    pub n_variables: usize,
    pub n_clauses: usize,
    pub clauses: Vec<Clause>,
    pub assignment: Vec<Option<bool>>,
}

impl View for Task {
    type V = TaskView;

    open spec fn view(&self) -> TaskView {
        TaskView {
            n_variables: self.n_variables as nat,
            clauses: self.clauses@.map_values(|c: Clause| c@),
            assignment: self.assignment@,
        }
    }
}

/// Every clause caches its own literal count.
pub open spec fn counts_ok(cs: Seq<Clause>) -> bool {
    forall|j: int| 0 <= j < cs.len() ==> (#[trigger] cs[j]).n_literals == cs[j].literals.len()
}

impl Task {
    /// The view is well formed, the clause count is cached, and so is each literal count.
    pub open spec fn wf(&self) -> bool {
        &&& self@.wf()
        &&& self.n_clauses == self.clauses.len()
        &&& counts_ok(self.clauses@)
    }

    /// A formula with `n_variables` variables, all unassigned, and no clauses yet; room is
    /// kept for `n_clauses` of them.
    pub fn empty(n_variables: usize, n_clauses: usize) -> (r: Task)
        requires
            n_variables < isize::MAX,
        ensures
            r.wf(),
            r@.n_variables == n_variables,
            r@.clauses == Seq::<Seq<isize>>::empty(),
            r@.assignment == Seq::new(n_variables as nat, |i: int| None::<bool>),
    {
        let mut assignment: Vec<Option<bool>> = Vec::new();
        let mut i: usize = 0;
        while i < n_variables
            invariant
                i <= n_variables,
                assignment@ == Seq::new(i as nat, |k: int| None::<bool>),
            decreases n_variables - i,
        {
            assignment.push(None);
            i += 1;
            assert(assignment@ =~= Seq::new(i as nat, |k: int| None::<bool>));
        }
        let r = Task { n_variables, n_clauses: 0, clauses: Vec::with_capacity(n_clauses), assignment };
        assert(r@.clauses =~= Seq::<Seq<isize>>::empty());
        r
    }

    pub fn is_nth_satisfied(&self, n: usize) -> (r: bool)
        requires
            self.wf(),
            n < self@.clauses.len(),
        ensures
            r == clause_satisfied(self@.clauses[n as int], self@.assignment),
    {
        assert(clause_ok(self@.clauses[n as int], self@.n_variables));
        self.clauses[n].is_satisfied(&self.assignment)
    }

    /// Every active clause is finally satisfied and every variable has a value.
    pub fn is_solved(&self) -> (r: bool)
        requires
            self.wf(),
        ensures
            r == self@.solved(),
    {
        let mut i: usize = 0;
        while i < self.clauses.len()
            invariant
                self.wf(),
                i <= self@.clauses.len(),
                forall|j: int| 0 <= j < i ==> clause_satisfied(#[trigger] self@.clauses[j], self@.assignment),
            decreases self@.clauses.len() - i,
        {
            if !self.is_nth_satisfied(i) {
                return false;
            }
            i += 1;
        }
        let mut k: usize = 0;
        while k < self.assignment.len()
            invariant
                self.wf(),
                k <= self@.assignment.len(),
                forall|j: int| 0 <= j < k ==> (#[trigger] self@.assignment[j]) is Some,
            decreases self@.assignment.len() - k,
        {
            if self.assignment[k].is_none() {
                return false;
            }
            k += 1;
        }
        true
    }

    /// No active clause is contradicted by the partial assignment.
    pub fn is_solvable(&self) -> (r: bool)
        requires
            self.wf(),
        ensures
            r == self@.solvable(),
    {
        let mut i: usize = 0;
        while i < self.clauses.len()
            invariant
                self.wf(),
                i <= self@.clauses.len(),
                forall|j: int| 0 <= j < i ==> clause_open(#[trigger] self@.clauses[j], self@.assignment),
            decreases self@.clauses.len() - i,
        {
            assert(clause_ok(self@.clauses[i as int], self@.n_variables));
            if !self.clauses[i].can_be_satisfied(&self.assignment) {
                return false;
            }
            i += 1;
        }
        true
    }

    /// Sets or clears the value of variable `literal`.
    pub fn assign_literal(&mut self, literal: usize, value: Option<bool>)
        requires
            old(self).wf(),
            1 <= literal <= old(self).n_variables,
        ensures
            final(self).wf(),
            final(self)@ == (TaskView {
                assignment: old(self)@.assignment.update(literal - 1, value),
                ..old(self)@
            }),
    {
        self.assignment.set(literal - 1, value);
    }

    /// Puts `clause` at the front of the active list.
    pub fn add_clause(&mut self, clause: Clause)
        requires
            old(self).wf(),
            clause.wf(),
            clause_ok(clause@, old(self)@.n_variables),
        ensures
            final(self).wf(),
            final(self)@ == (TaskView { clauses: old(self)@.clauses.insert(0, clause@), ..old(self)@ }),
    {
        self.clauses.insert(0, clause);
        self.n_clauses = self.clauses.len();
        assert(self@.clauses =~= old(self)@.clauses.insert(0, clause@));
    }

    /// Takes clause `n` out of the active list and hands it back.
    pub fn remove_nth_clause(&mut self, n: usize) -> (r: Clause)
        requires
            old(self).wf(),
            n < old(self)@.clauses.len(),
        ensures
            final(self).wf(),
            r.n_literals == r.literals.len(),
            r@ == old(self)@.clauses[n as int],
            final(self)@ == (TaskView { clauses: old(self)@.clauses.remove(n as int), ..old(self)@ }),
    {
        self.n_clauses = self.n_clauses - 1;
        let r = self.clauses.remove(n);
        assert(self@.clauses =~= old(self)@.clauses.remove(n as int));
        r
    }
}

} // verus!
