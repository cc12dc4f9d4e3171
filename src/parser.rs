use vstd::prelude::*;
use vstd::string::{StrSliceExecFns, StringSliceAdditionalSpecFns};

use crate::task::{
    clause_ok, first_occurrences, lemma_first_occurrences_from, lit_ok, Clause, Task,
};

verus! {

/// ASCII whitespace. Only these bytes separate tokens and may precede a closing `%`;
/// other Unicode whitespace counts as an ordinary character of a token.
pub open spec fn is_space(c: u8) -> bool {
    c == 32 || (9 <= c && c <= 13)
}

/// An ASCII decimal digit.
pub open spec fn is_digit(c: u8) -> bool {
    48 <= c && c <= 57
}

/// Every byte is a decimal digit.
pub open spec fn all_digits(s: Seq<u8>) -> bool {
    forall|i: int| 0 <= i < s.len() ==> is_digit(#[trigger] s[i])
}

/// The number that a run of decimal digits writes.
pub open spec fn digits_value(s: Seq<u8>) -> nat
    decreases s.len(),
{
    if s.len() == 0 {
        0
    } else {
        digits_value(s.drop_last()) * 10 + (s.last() - 48) as nat
    }
}

/// Lines read so far and the line still open, splitting at `\n` and dropping the `\r` of
/// a `\r\n` ending.
pub open spec fn lines_acc(b: Seq<u8>) -> (Seq<Seq<u8>>, Seq<u8>)
    decreases b.len(),
{
    if b.len() == 0 {
        (Seq::empty(), Seq::empty())
    } else {
        let (ls, cur) = lines_acc(b.drop_last());
        if b.last() == 10 {
            (ls.push(strip_cr(cur)), Seq::empty())
        } else {
            (ls, cur.push(b.last()))
        }
    }
}

/// A line without the `\r` that may end it.
pub open spec fn strip_cr(l: Seq<u8>) -> Seq<u8> {
    if l.len() > 0 && l.last() == 13 {
        l.drop_last()
    } else {
        l
    }
}

/// The lines of a text; a last line without its `\n` counts when it is not empty.
pub open spec fn lines_of(b: Seq<u8>) -> Seq<Seq<u8>> {
    let (ls, cur) = lines_acc(b);
    if cur.len() > 0 {
        ls.push(cur)
    } else {
        ls
    }
}

/// Tokens read so far and the token still open, splitting at whitespace.
pub open spec fn tokens_acc(l: Seq<u8>) -> (Seq<Seq<u8>>, Seq<u8>)
    decreases l.len(),
{
    if l.len() == 0 {
        (Seq::empty(), Seq::empty())
    } else {
        let (ts, cur) = tokens_acc(l.drop_last());
        if is_space(l.last()) {
            if cur.len() > 0 {
                (ts.push(cur), Seq::empty())
            } else {
                (ts, cur)
            }
        } else {
            (ts, cur.push(l.last()))
        }
    }
}

/// The non-empty whitespace-separated tokens of a line.
pub open spec fn tokens_of(l: Seq<u8>) -> Seq<Seq<u8>> {
    let (ts, cur) = tokens_acc(l);
    if cur.len() > 0 {
        ts.push(cur)
    } else {
        ts
    }
}

/// The digits of a token after an optional sign `+` (or also `-`, where `signed`).
pub open spec fn unsigned_part(t: Seq<u8>, signed: bool) -> Seq<u8> {
    if t.len() > 0 && (t[0] == 43 || (signed && t[0] == 45)) {
        t.skip(1)
    } else {
        t
    }
}

/// An unsigned decimal token (an optional `+`, then digits), where its value is at most `bound`.
pub open spec fn count_of(t: Seq<u8>, bound: nat) -> Option<nat> {
    let d = unsigned_part(t, false);
    if d.len() > 0 && all_digits(d) && digits_value(d) <= bound {
        Some(digits_value(d))
    } else {
        None
    }
}

/// A literal token over `n` variables: an optional sign, then digits that write a
/// variable of `1..=n`.
pub open spec fn literal_of(t: Seq<u8>, n: nat) -> Option<isize> {
    let d = unsigned_part(t, true);
    if d.len() > 0 && all_digits(d) && 1 <= digits_value(d) <= n {
        if t[0] == 45 {
            Some((-digits_value(d)) as isize)
        } else {
            Some(digits_value(d) as isize)
        }
    } else {
        None
    }
}

/// Index of the last `0` byte of a line, or -1.
pub open spec fn last_zero(l: Seq<u8>) -> int
    decreases l.len(),
{
    if l.len() == 0 {
        -1
    } else if l.last() == 48 {
        l.len() - 1
    } else {
        last_zero(l.drop_last())
    }
}

/// The first byte after leading whitespace is `%`: the clause list ends here.
pub open spec fn is_stop(l: Seq<u8>) -> bool {
    exists|i: int| 0 <= i < l.len() && l[i] == 37 && forall|k: int| 0 <= k < i ==> is_space(#[trigger] l[k])
}

/// Every token is a literal over `n` variables.
pub open spec fn all_literals(ts: Seq<Seq<u8>>, n: nat) -> bool {
    forall|i: int| 0 <= i < ts.len() ==> (#[trigger] literal_of(ts[i], n)) is Some
}

/// The tokens of a line before its last `0`.
pub open spec fn clause_tokens(l: Seq<u8>) -> Seq<Seq<u8>> {
    tokens_of(l.subrange(0, last_zero(l)))
}

/// The clause of a line: the tokens before its last `0`, read as literals over `n`
/// variables, each kept once.
pub open spec fn line_clause(l: Seq<u8>, n: nat) -> Option<Seq<isize>> {
    if last_zero(l) >= 0 && all_literals(clause_tokens(l), n) {
        let ts = clause_tokens(l);
        Some(first_occurrences(Seq::new(ts.len(), |i: int| literal_of(ts[i], n)->Some_0)))
    } else {
        None
    }
}

/// The first line at or after `i` that starts with `p`.
pub open spec fn header_from(ls: Seq<Seq<u8>>, i: int) -> Option<int>
    decreases ls.len() - i,
{
    if i < 0 || i >= ls.len() {
        None
    } else if ls[i].len() > 0 && ls[i][0] == 112 {
        Some(i)
    } else {
        header_from(ls, i + 1)
    }
}

/// The first line at or after `i` that ends the clause list, or the line count.
pub open spec fn body_end(ls: Seq<Seq<u8>>, i: int) -> int
    decreases ls.len() - i,
{
    if i < 0 || i >= ls.len() {
        ls.len() as int
    } else if is_stop(ls[i]) {
        i
    } else {
        body_end(ls, i + 1)
    }
}

/// The variable count of a header line `p cnf <variables> <clauses>`, whose third and
/// fourth tokens are counts.
pub open spec fn header_of(l: Seq<u8>) -> Option<nat> {
    let ts = tokens_of(l);
    if ts.len() >= 4 && count_of(ts[2], (isize::MAX - 1) as nat) is Some && count_of(
        ts[3],
        usize::MAX as nat,
    ) is Some {
        count_of(ts[2], (isize::MAX - 1) as nat)
    } else {
        None
    }
}

/// The variable count and the clauses that a DIMACS CNF text gives: lines before the
/// header are skipped, and the clause lines run up to a line that starts with `%`.
pub open spec fn dimacs_of(b: Seq<u8>) -> Option<(nat, Seq<Seq<isize>>)> {
    let ls = lines_of(b);
    match header_from(ls, 0) {
        None => None,
        Some(h) => match header_of(ls[h]) {
            None => None,
            Some(n) => {
                let e = body_end(ls, h + 1);
                if forall|k: int| h < k < e ==> (#[trigger] line_clause(ls[k], n)) is Some {
                    Some((n, Seq::new((e - h - 1) as nat, |k: int| line_clause(ls[h + 1 + k], n)->Some_0)))
                } else {
                    None
                }
            },
        },
    }
}

/// The byte sequences held by a vector of byte vectors.
pub open spec fn deep(v: Seq<Vec<u8>>) -> Seq<Seq<u8>> {
    v.map_values(|x: Vec<u8>| x@)
}

/// The value of a run of digits is at least that of each of its prefixes.
pub proof fn lemma_digits_prefix(s: Seq<u8>, i: int)
    requires
        all_digits(s),
        0 <= i <= s.len(),
    ensures
        digits_value(s.subrange(0, i)) <= digits_value(s),
    decreases s.len(),
{
    if i < s.len() {
        assert(s.drop_last().subrange(0, i) =~= s.subrange(0, i));
        lemma_digits_prefix(s.drop_last(), i);
    } else {
        assert(s.subrange(0, i) =~= s);
    }
}

/// `last_zero` is -1 or the index of a `0` byte.
pub proof fn lemma_last_zero(l: Seq<u8>)
    ensures
        -1 <= last_zero(l) < l.len(),
        last_zero(l) >= 0 ==> l[last_zero(l)] == 48,
    decreases l.len(),
{
    if l.len() > 0 {
        lemma_last_zero(l.drop_last());
    }
}

/// The end of the clause list lies between its start and the line count.
pub proof fn lemma_body_end(ls: Seq<Seq<u8>>, i: int)
    requires
        0 <= i <= ls.len(),
    ensures
        i <= body_end(ls, i) <= ls.len(),
    decreases ls.len() - i,
{
    if i < ls.len() {
        lemma_body_end(ls, i + 1);
    }
}

/// The lines of a text.
fn split_lines(b: &Vec<u8>) -> (r: Vec<Vec<u8>>)
    ensures
        deep(r@) == lines_of(b@),
{
    let mut lines: Vec<Vec<u8>> = Vec::new();
    let mut cur: Vec<u8> = Vec::new();
    let mut i: usize = 0;
    while i < b.len()
        invariant
            i <= b@.len(),
            (deep(lines@), cur@) == lines_acc(b@.subrange(0, i as int)),
        decreases b@.len() - i,
    {
        proof {
            assert(b@.subrange(0, i + 1).drop_last() =~= b@.subrange(0, i as int));
        }
        let c = b[i];
        if c == 10 {
            if cur.len() > 0 && cur[cur.len() - 1] == 13 {
                cur.pop();
            }
            let ghost old_lines = deep(lines@);
            lines.push(cur);
            cur = Vec::new();
            assert(deep(lines@) =~= old_lines.push(lines@.last()@));
        } else {
            cur.push(c);
        }
        i += 1;
    }
    assert(b@.subrange(0, b@.len() as int) =~= b@);
    if cur.len() > 0 {
        let ghost old_lines = deep(lines@);
        lines.push(cur);
        assert(deep(lines@) =~= old_lines.push(lines@.last()@));
    }
    lines
}

/// Tokens of the first `end` bytes of a line.
fn split_tokens(l: &Vec<u8>, end: usize) -> (r: Vec<Vec<u8>>)
    requires
        end <= l@.len(),
    ensures
        deep(r@) == tokens_of(l@.subrange(0, end as int)),
{
    let ghost s = l@.subrange(0, end as int);
    let mut tokens: Vec<Vec<u8>> = Vec::new();
    let mut cur: Vec<u8> = Vec::new();
    let mut i: usize = 0;
    while i < end
        invariant
            i <= end <= l@.len(),
            s == l@.subrange(0, end as int),
            (deep(tokens@), cur@) == tokens_acc(s.subrange(0, i as int)),
        decreases end - i,
    {
        proof {
            assert(s.subrange(0, i + 1).drop_last() =~= s.subrange(0, i as int));
        }
        let c = l[i];
        if c == 32 || (9 <= c && c <= 13) {
            if cur.len() > 0 {
                let ghost old_tokens = deep(tokens@);
                tokens.push(cur);
                cur = Vec::new();
                assert(deep(tokens@) =~= old_tokens.push(tokens@.last()@));
            }
        } else {
            cur.push(c);
        }
        i += 1;
    }
    assert(s.subrange(0, end as int) =~= s);
    if cur.len() > 0 {
        let ghost old_tokens = deep(tokens@);
        tokens.push(cur);
        assert(deep(tokens@) =~= old_tokens.push(tokens@.last()@));
    }
    tokens
}

/// The value of the digits of `t` from `start` on, where they are all digits, at least
/// one, and write at most `bound`.
fn digits_at_most(t: &Vec<u8>, start: usize, bound: u128) -> (r: Option<u128>)
    requires
        start <= t@.len(),
        bound <= usize::MAX,
    ensures
        ({
            let d = t@.skip(start as int);
            match r {
                Some(v) => d.len() > 0 && all_digits(d) && v == digits_value(d) && v <= bound,
                None => !(d.len() > 0 && all_digits(d) && digits_value(d) <= bound),
            }
        }),
{
    let ghost d = t@.skip(start as int);
    if start == t.len() {
        return None;
    }
    let mut value: u128 = 0;
    let mut i: usize = start;
    while i < t.len()
        invariant
            start <= i <= t@.len(),
            d == t@.skip(start as int),
            all_digits(d.subrange(0, i - start)),
            value == digits_value(d.subrange(0, i - start)),
            value <= bound,
            bound <= usize::MAX,
        decreases t@.len() - i,
    {
        let c = t[i];
        proof {
            assert(d.subrange(0, i - start + 1).drop_last() =~= d.subrange(0, i - start));
            assert(d[i - start] == c);
        }
        if c < 48 || c > 57 {
            return None;
        }
        assert(value * 10 + 9 <= usize::MAX * 10 + 9) by (nonlinear_arith)
            requires
                value <= usize::MAX,
        ;
        let next = value * 10 + (c - 48) as u128;
        if next > bound {
            proof {
                if all_digits(d) {
                    lemma_digits_prefix(d, i - start + 1);
                }
            }
            return None;
        }
        value = next;
        i += 1;
    }
    assert(d.subrange(0, i - start) =~= d);
    Some(value)
}

/// An unsigned count token of value at most `bound`.
fn parse_count(t: &Vec<u8>, bound: u128) -> (r: Option<u128>)
    requires
        bound <= usize::MAX,
    ensures
        match r {
            Some(v) => count_of(t@, bound as nat) == Some(v as nat),
            None => count_of(t@, bound as nat) is None,
        },
{
    let start: usize = if t.len() > 0 && t[0] == 43 {
        1
    } else {
        0
    };
    assert(t@.skip(0) =~= t@);
    digits_at_most(t, start, bound)
}

/// A literal token over `n` variables.
fn parse_literal(t: &Vec<u8>, n: usize) -> (r: Option<isize>)
    requires
        n < isize::MAX,
    ensures
        r == literal_of(t@, n as nat),
{
    let negative = t.len() > 0 && t[0] == 45;
    let start: usize = if t.len() > 0 && (t[0] == 43 || t[0] == 45) {
        1
    } else {
        0
    };
    assert(t@.skip(0) =~= t@);
    match digits_at_most(t, start, n as u128) {
        None => None,
        Some(v) => {
            if v == 0 {
                None
            } else if negative {
                Some(-(v as isize))
            } else {
                Some(v as isize)
            }
        },
    }
}

/// Index of the last `0` byte, or `None`.
fn find_last_zero(l: &Vec<u8>) -> (r: Option<usize>)
    ensures
        match r {
            Some(z) => z == last_zero(l@),
            None => last_zero(l@) < 0,
        },
{
    let mut found: Option<usize> = None;
    let mut i: usize = 0;
    while i < l.len()
        invariant
            i <= l@.len(),
            match found {
                Some(z) => z == last_zero(l@.subrange(0, i as int)),
                None => last_zero(l@.subrange(0, i as int)) < 0,
            },
        decreases l@.len() - i,
    {
        proof {
            assert(l@.subrange(0, i + 1).drop_last() =~= l@.subrange(0, i as int));
        }
        if l[i] == 48 {
            found = Some(i);
        }
        i += 1;
    }
    assert(l@.subrange(0, l@.len() as int) =~= l@);
    found
}

/// Whether the first byte after leading whitespace is `%`.
fn starts_with_stop(l: &Vec<u8>) -> (r: bool)
    ensures
        r == is_stop(l@),
{
    let mut i: usize = 0;
    while i < l.len() && (l[i] == 32 || (9 <= l[i] && l[i] <= 13))
        invariant
            i <= l@.len(),
            forall|k: int| 0 <= k < i ==> is_space(#[trigger] l@[k]),
        decreases l@.len() - i,
    {
        i += 1;
    }
    let r = i < l.len() && l[i] == 37;
    if !r {
        assert forall|j: int| 0 <= j < l@.len() && l@[j] == 37 implies !(forall|k: int|
            0 <= k < j ==> is_space(#[trigger] l@[k])) by {
            if j > i as int {
                assert(!is_space(l@[i as int]));
            }
        }
    }
    r
}

/// The clause of one line over `n` variables.
fn parse_clause_line(l: &Vec<u8>, n: usize) -> (r: Option<Clause>)
    requires
        n < isize::MAX,
    ensures
        match r {
            Some(c) => c.wf() && clause_ok(c@, n as nat) && line_clause(l@, n as nat) == Some(c@),
            None => line_clause(l@, n as nat) is None,
        },
{
    let z = match find_last_zero(l) {
        None => return None,
        Some(z) => z,
    };
    proof {
        lemma_last_zero(l@);
    }
    let tokens = split_tokens(l, z);
    let ghost ts = deep(tokens@);
    let mut literals: Vec<isize> = Vec::new();
    let mut i: usize = 0;
    while i < tokens.len()
        invariant
            i <= tokens@.len(),
            ts == deep(tokens@),
            z < l@.len(),
            z as int == last_zero(l@),
            ts == tokens_of(l@.subrange(0, z as int)),
            n < isize::MAX,
            forall|k: int| 0 <= k < i ==> (#[trigger] literal_of(ts[k], n as nat)) is Some,
            literals@ == Seq::new(i as nat, |k: int| literal_of(ts[k], n as nat)->Some_0),
        decreases tokens@.len() - i,
    {
        assert(ts[i as int] == tokens@[i as int]@);
        match parse_literal(&tokens[i], n) {
            None => {
                assert(!(literal_of(ts[i as int], n as nat) is Some));
                assert(!all_literals(clause_tokens(l@), n as nat));
                return None;
            },
            Some(literal) => {
                literals.push(literal);
            },
        }
        i += 1;
        assert(literals@ =~= Seq::new(i as nat, |k: int| literal_of(ts[k], n as nat)->Some_0));
    }
    let clause = Clause::from_literal_iter(literals);
    proof {
        let s = literals@;
        lemma_first_occurrences_from(s);
        assert forall|j: int| 0 <= j < clause@.len() implies lit_ok(#[trigger] clause@[j], n as nat) by {
            assert(first_occurrences(s).contains(clause@[j]));
            assert(s.contains(clause@[j]));
            let k = choose|k: int| 0 <= k < s.len() && s[k] == clause@[j];
            assert(literal_of(ts[k], n as nat) is Some);
        }
    }
    Some(clause)
}

/// Reads formulas in DIMACS CNF.
pub struct Parser {}

impl Parser {
    /// The formula that a DIMACS CNF text gives, with every variable unassigned; `None`
    /// where the text has no header line, a header without two counts, or a clause line
    /// without a closing `0` or with a token that is no literal over the declared variables.
    pub fn parse_str(&self, input: &str) -> (r: Option<Task>)
        ensures
            match r {
                Some(task) => {
                    &&& task.wf()
                    &&& dimacs_of(input.spec_bytes()) == Some((task@.n_variables, task@.clauses))
                    &&& forall|i: int| 0 <= i < task@.assignment.len() ==> (#[trigger] task@.assignment[i]) is None
                },
                None => dimacs_of(input.spec_bytes()) is None,
            },
    {
        let bytes = input.as_bytes_vec();
        let lines = split_lines(&bytes);
        let ghost ls = deep(lines@);
        let mut h: usize = 0;
        while h < lines.len() && !(lines[h].len() > 0 && lines[h][0] == 112)
            invariant
                h <= lines@.len(),
                ls == deep(lines@),
                ls == lines_of(input.spec_bytes()),
                header_from(ls, 0) == header_from(ls, h as int),
            decreases lines@.len() - h,
        {
            assert(ls[h as int] == lines@[h as int]@);
            h += 1;
        }
        if h == lines.len() {
            return None;
        }
        assert(ls[h as int] == lines@[h as int]@);
        let tokens = split_tokens(&lines[h], lines[h].len());
        assert(lines@[h as int]@.subrange(0, lines@[h as int]@.len() as int) =~= lines@[h as int]@);
        if tokens.len() < 4 {
            return None;
        }
        assert(deep(tokens@)[2] == tokens@[2]@ && deep(tokens@)[3] == tokens@[3]@);
        let n = match parse_count(&tokens[2], (isize::MAX - 1) as u128) {
            None => return None,
            Some(n) => n as usize,
        };
        let declared = match parse_count(&tokens[3], usize::MAX as u128) {
            None => return None,
            Some(m) => m as usize,
        };
        let rest = lines.len() - h - 1;
        let mut task = Task::empty(n, if declared < rest { declared } else { rest });
        let mut i: usize = h + 1;
        while i < lines.len() && !starts_with_stop(&lines[i])
            invariant
                h < i <= lines@.len(),
                ls == deep(lines@),
                ls == lines_of(input.spec_bytes()),
                header_from(ls, 0) == Some(h as int),
                header_of(ls[h as int]) == Some(n as nat),
                n < isize::MAX,
                body_end(ls, h + 1) == body_end(ls, i as int),
                task.wf(),
                task@.n_variables == n,
                forall|j: int| 0 <= j < task@.assignment.len() ==> (#[trigger] task@.assignment[j]) is None,
                forall|k: int| h < k < i ==> (#[trigger] line_clause(ls[k], n as nat)) is Some,
                task@.clauses == Seq::new((i - h - 1) as nat, |k: int| line_clause(ls[h + 1 + k], n as nat)->Some_0),
            decreases lines@.len() - i,
        {
            assert(ls[i as int] == lines@[i as int]@);
            proof {
                lemma_body_end(ls, i + 1);
            }
            match parse_clause_line(&lines[i], n) {
                None => {
                    assert(!is_stop(ls[i as int]));
                    assert(body_end(ls, i as int) == body_end(ls, i + 1));
                    assert(i < body_end(ls, h + 1));
                    assert(!(line_clause(ls[i as int], n as nat) is Some));
                    return None;
                },
                Some(clause) => {
                    let ghost before = task@.clauses;
                    task.clauses.push(clause);
                    assert(task@.clauses =~= before.push(clause@));
                    task.n_clauses = task.clauses.len();
                },
            }
            i += 1;
            assert(task@.clauses =~= Seq::new((i - h - 1) as nat, |k: int| line_clause(ls[h + 1 + k], n as nat)->Some_0));
        }
        if i < lines.len() {
            assert(ls[i as int] == lines@[i as int]@);
        }
        Some(task)
    }
}

} // verus!
