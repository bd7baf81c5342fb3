//! The clause capability and its representations.
use vstd::prelude::*;

use crate::dnf::{combine, compatible, consistent, raw_literals, vars_below, Literals, Sign, DNF};

pub mod bit;
pub mod compressed;
pub mod map;
pub mod vec;
pub mod vec_bit;

verus! {

/// What a solver run concluded.
#[derive(Debug, PartialEq, Eq, Clone, Copy, Structural)]
pub enum SolutionResult {
    Inconclusive,
    Satisfiable,
    Unsatisfiable,
}

/// Outcome of merging two clauses.
pub enum MergeResult<T> {
    Merged(T),
    Incompatible,
}

/// A clause representation: a set of literals, at most one per variable.
pub trait Merge: Sized {
    /// The representation invariant.
    spec fn wf(&self) -> bool;

    /// The literals that the clause holds.
    spec fn lits(&self) -> Literals;

    /// The clause without literals.
    fn new_empty() -> (r: Self)
        ensures
            r.wf(),
            r.lits() == Map::<nat, Sign>::empty(),
    ;

    /// An independent copy.
    fn duplicate(&self) -> (r: Self)
        requires
            self.wf(),
        ensures
            r.wf(),
            r.lits() == self.lits(),
    ;

    /// Intersects the assignment sets of two clauses: the union of their
    /// literals, or `Incompatible` when a variable has opposite signs.
    fn merge(a: Self, b: &Self, total_size_hint: u32) -> (r: MergeResult<Self>)
        requires
            a.wf(),
            b.wf(),
        ensures
            match r {
                MergeResult::Merged(c) => compatible(a.lits(), b.lits()) && c.wf() && c.lits()
                    == combine(a.lits(), b.lits()),
                MergeResult::Incompatible => !compatible(a.lits(), b.lits()),
            },
    ;

    /// Builds the clauses of raw literal lists, in input order. No list may
    /// give a variable both signs, and every variable lies below `u32::MAX`,
    /// as any variable below a 32-bit variable count does.
    fn from_vec(vec: Vec<Vec<(u32, Sign)>>) -> (r: DNF<Self>)
        requires
            forall|i: int|
                0 <= i < vec@.len() ==> consistent(#[trigger] vec@[i]@) && vars_below(
                    vec@[i]@,
                    u32::MAX as nat,
                ),
        ensures
            r@.len() == vec@.len(),
            forall|i: int|
                0 <= i < vec@.len() ==> (#[trigger] r@[i]).wf() && r@[i].lits() == raw_literals(
                    vec@[i]@,
                ),
    ;

    /// Number of distinct variables.
    fn len(&self) -> (r: usize)
        requires
            self.wf(),
        ensures
            r == self.lits().len(),
    ;
}

} // verus!
