use vstd::prelude::*;

verus! {

/// What a search ends with.
///
/// `SAT` holds a value for every variable: variable `v` is at index `v - 1`.
#[derive(Debug, PartialEq, Eq, Clone)]
pub enum TaskResult<'a> {
    SAT(Vec<bool>),
    UNSAT(&'a str),
    UNKNOWN,
}

} // verus!
