//! Adaptive clauses: an ordered list while sparse, converted for good to
//! the dual-bitset form once a merge result grows dense.
//!
//! A list costs 40 bits per literal (a 32-bit variable and a sign byte),
//! the two bitsets `2 N` bits for `N` variables, so the list stops paying
//! off once it holds more than `N / 20` literals.
use vstd::prelude::*;

use crate::clauses::bit::BitClause;
use crate::clauses::vec::{lemma_sorted_consistent, VecClause};
use crate::clauses::{Merge, MergeResult};
use crate::dnf::{consistent, lemma_raw_literals, raw_literals, vars_below, Literals, Sign, DNF};

verus! {

/// A clause stored as a sorted list or as two bitsets.
#[derive(Debug)]
pub enum AdaClause {
    Vec(VecClause),
    Bit(BitClause),
}

/// Every variable is below `u32::MAX`.
pub open spec fn narrow(l: Literals) -> bool {
    forall|v: nat| #[trigger] l.contains_key(v) ==> v < u32::MAX
}

/// The bitset form of a list clause.
fn to_bits(v: VecClause) -> (r: BitClause)
    requires
        v.wf(),
        narrow(v.lits()),
    ensures
        r.wf(),
        r.lits() == v.lits(),
{
    let list = v.into_vec();
    proof {
        lemma_sorted_consistent(list@);
        lemma_raw_literals(list@);
        assert forall|i: int| 0 <= i < list@.len() implies (list@[i].0 as nat) < u32::MAX by {
            assert(raw_literals(list@).contains_key(list@[i].0 as nat));
        }
    }
    BitClause::from_literals(&list)
}

impl Merge for AdaClause {
    open spec fn wf(&self) -> bool {
        match self {
            AdaClause::Vec(v) => v.wf() && narrow(v.lits()),
            AdaClause::Bit(b) => b.wf(),
        }
    }

    open spec fn lits(&self) -> Literals {
        match self {
            AdaClause::Vec(v) => v.lits(),
            AdaClause::Bit(b) => b.lits(),
        }
    }

    fn new_empty() -> (r: Self) {
        AdaClause::Vec(VecClause::new_empty())
    }

    fn duplicate(&self) -> (r: Self) {
        match self {
            AdaClause::Vec(v) => AdaClause::Vec(v.duplicate()),
            AdaClause::Bit(b) => AdaClause::Bit(b.duplicate()),
        }
    }

    /// A bitset operand gives a bitset result; two list operands give a
    /// bitset result exactly when it holds more than `total_size_hint / 20`
    /// literals.
    fn merge(a: AdaClause, b: &AdaClause, total_size_hint: u32) -> (r: MergeResult<AdaClause>)
        ensures
            r matches MergeResult::Merged(c) ==> ((a is Bit || *b is Bit) ==> c is Bit),
            r matches MergeResult::Merged(c) ==> ((a is Vec && *b is Vec) ==> (c is Bit <==> c.lits().len()
                > total_size_hint / 20)),
    {
        let merged = match (a, b) {
            (AdaClause::Vec(a), AdaClause::Vec(b)) => match VecClause::merge(a, b, total_size_hint) {
                MergeResult::Merged(c) => {
                    if c.len() > (total_size_hint as usize) / 20 {
                        AdaClause::Bit(to_bits(c))
                    } else {
                        AdaClause::Vec(c)
                    }
                },
                MergeResult::Incompatible => {
                    return MergeResult::Incompatible;
                },
            },
            (AdaClause::Bit(a), AdaClause::Vec(b)) => match BitClause::merge(
                a,
                &to_bits(b.duplicate()),
                total_size_hint,
            ) {
                MergeResult::Merged(c) => AdaClause::Bit(c),
                MergeResult::Incompatible => {
                    return MergeResult::Incompatible;
                },
            },
            (AdaClause::Vec(a), AdaClause::Bit(b)) => match BitClause::merge(
                to_bits(a),
                b,
                total_size_hint,
            ) {
                MergeResult::Merged(c) => AdaClause::Bit(c),
                MergeResult::Incompatible => {
                    return MergeResult::Incompatible;
                },
            },
            (AdaClause::Bit(a), AdaClause::Bit(b)) => match BitClause::merge(a, b, total_size_hint) {
                MergeResult::Merged(c) => AdaClause::Bit(c),
                MergeResult::Incompatible => {
                    return MergeResult::Incompatible;
                },
            },
        };
        MergeResult::Merged(merged)
    }

    /// Every clause starts as a sorted list.
    fn from_vec(vec: Vec<Vec<(u32, Sign)>>) -> (r: DNF<AdaClause>)
        ensures
            forall|i: int| 0 <= i < r@.len() ==> #[trigger] r@[i] is Vec,
    {
        let mut out: Vec<AdaClause> = Vec::new();
        let mut i: usize = 0;
        while i < vec.len()
            invariant
                i <= vec@.len(),
                out@.len() == i,
                forall|j: int|
                    0 <= j < vec@.len() ==> consistent(#[trigger] vec@[j]@) && vars_below(
                        vec@[j]@,
                        u32::MAX as nat,
                    ),
                forall|j: int|
                    0 <= j < i ==> (#[trigger] out@[j]).wf() && out@[j].lits() == raw_literals(
                        vec@[j]@,
                    ) && out@[j] is Vec,
            decreases vec@.len() - i,
        {
            let c = VecClause::from_literals(&vec[i]);
            proof {
                lemma_raw_literals(vec@[i as int]@);
                assert forall|v: nat| #[trigger] c.lits().contains_key(v) implies v < u32::MAX by {
                    let k = choose|k: int|
                        0 <= k < vec@[i as int]@.len() && vec@[i as int]@[k].0 as nat == v;
                }
            }
            out.push(AdaClause::Vec(c));
            i = i + 1;
        }
        DNF::from(out)
    }

    fn len(&self) -> (r: usize) {
        match self {
            AdaClause::Vec(v) => v.len(),
            AdaClause::Bit(b) => b.len(),
        }
    }
}

} // verus!
