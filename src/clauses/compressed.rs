//! Compressed-bitset clauses: the dual-bitset layout over roaring bitmaps,
//! merged by whole-set operations.
use std::ops::{BitAnd, BitOr, BitXor};

use roaring::RoaringBitmap;

use vstd::prelude::*;

use crate::clauses::{Merge, MergeResult};
use crate::dnf::{
    combine, compatible, consistent, lemma_prefix, lemma_raw_literals, raw_literals, vars_below,
    Literals, Sign, DNF,
};

verus! {

#[verifier::external_type_specification]
#[verifier::external_body]
pub struct ExRoaringBitmap(RoaringBitmap);

/// The members of a roaring bitmap.
pub uninterp spec fn roaring_items(b: RoaringBitmap) -> Set<nat>;

/// Relies on `RoaringBitmap::new`: a new bitmap is empty.
#[verifier::external_body]
fn roaring_new() -> (r: RoaringBitmap)
    ensures
        roaring_items(r) == Set::<nat>::empty(),
{
    RoaringBitmap::new()
}

/// Relies on `RoaringBitmap::clone`: the copy has the same members.
#[verifier::external_body]
fn roaring_clone(b: &RoaringBitmap) -> (r: RoaringBitmap)
    ensures
        roaring_items(r) == roaring_items(*b),
{
    b.clone()
}

/// Relies on `RoaringBitmap::insert`: adds `value`, and tells whether it
/// was absent.
#[verifier::external_body]
fn roaring_insert(b: &mut RoaringBitmap, value: u32) -> (r: bool)
    ensures
        roaring_items(*final(b)) == roaring_items(*old(b)).insert(value as nat),
        r == !roaring_items(*old(b)).contains(value as nat),
{
    b.insert(value)
}

/// Relies on `RoaringBitmap::len`: the number of members.
#[verifier::external_body]
fn roaring_len(b: &RoaringBitmap) -> (r: u64)
    ensures
        r == roaring_items(*b).len(),
{
    b.len()
}

/// Relies on `RoaringBitmap::is_empty`: whether there is no member.
#[verifier::external_body]
fn roaring_is_empty(b: &RoaringBitmap) -> (r: bool)
    ensures
        r == (roaring_items(*b) == Set::<nat>::empty()),
{
    b.is_empty()
}

/// Relies on `BitXor` of roaring bitmaps: the symmetric difference.
#[verifier::external_body]
fn roaring_xor(a: RoaringBitmap, b: &RoaringBitmap) -> (r: RoaringBitmap)
    ensures
        roaring_items(r) == roaring_items(a).difference(roaring_items(*b)).union(
            roaring_items(*b).difference(roaring_items(a)),
        ),
{
    a.bitxor(b)
}

/// Relies on `BitAnd` of roaring bitmaps: the intersection.
#[verifier::external_body]
fn roaring_and(a: RoaringBitmap, b: &RoaringBitmap) -> (r: RoaringBitmap)
    ensures
        roaring_items(r) == roaring_items(a).intersect(roaring_items(*b)),
{
    a.bitand(b)
}

/// Relies on `BitOr` of roaring bitmaps: the union.
#[verifier::external_body]
fn roaring_or(a: RoaringBitmap, b: &RoaringBitmap) -> (r: RoaringBitmap)
    ensures
        roaring_items(r) == roaring_items(a).union(roaring_items(*b)),
{
    a.bitor(b)
}

/// A clause as a roaring bitmap of its variables and one of its positive
/// variables.
#[derive(Debug)]
pub struct BitClause {
    literals: RoaringBitmap,
    signs: RoaringBitmap,
}

impl BitClause {
    /// The variables present.
    pub closed spec fn present(&self) -> Set<nat> {
        roaring_items(self.literals)
    }

    /// The variables that are positive.
    pub closed spec fn positive(&self) -> Set<nat> {
        roaring_items(self.signs)
    }

    /// The bitmaps of a consistent raw literal list.
    pub fn from_literals(list: &Vec<(u32, Sign)>) -> (r: BitClause)
        requires
            consistent(list@),
            vars_below(list@, u32::MAX as nat),
        ensures
            r.wf(),
            r.lits() == raw_literals(list@),
    {
        let mut out = BitClause { literals: roaring_new(), signs: roaring_new() };
        let mut k: usize = 0;
        assert(out.lits() =~= raw_literals(list@.subrange(0, 0)));
        while k < list.len()
            invariant
                k <= list@.len(),
                consistent(list@),
                vars_below(list@, u32::MAX as nat),
                out.wf(),
                out.lits() == raw_literals(list@.subrange(0, k as int)),
            decreases list@.len() - k,
        {
            let (l, s) = list[k];
            let ghost before = out.lits();
            proof {
                lemma_prefix(list@, k as int);
                let sub = list@.subrange(0, k as int);
                lemma_raw_literals(sub);
                if before.contains_key(l as nat) {
                    let i = choose|i: int| 0 <= i < sub.len() && sub[i].0 as nat == l as nat;
                    assert(sub[i] == list@[i]);
                    assert(before[l as nat] == s);
                }
            }
            roaring_insert(&mut out.literals, l);
            if s == Sign::Positive {
                roaring_insert(&mut out.signs, l);
            }
            assert(out.lits() =~= before.insert(l as nat, s));
            k = k + 1;
        }
        assert(list@.subrange(0, list@.len() as int) =~= list@);
        out
    }
}

impl Merge for BitClause {
    open spec fn wf(&self) -> bool {
        &&& self.positive().subset_of(self.present())
        &&& forall|v: nat| #[trigger] self.present().contains(v) ==> v < u32::MAX
    }

    open spec fn lits(&self) -> Literals {
        Map::new(
            |v: nat| self.present().contains(v),
            |v: nat|
                if self.positive().contains(v) {
                    Sign::Positive
                } else {
                    Sign::Negative
                },
        )
    }

    fn new_empty() -> (r: Self) {
        let r = BitClause { literals: roaring_new(), signs: roaring_new() };
        assert(r.lits() =~= Map::<nat, Sign>::empty());
        r
    }

    fn duplicate(&self) -> (r: Self) {
        let r = BitClause {
            literals: roaring_clone(&self.literals),
            signs: roaring_clone(&self.signs),
        };
        assert(r.lits() =~= self.lits());
        r
    }

    fn merge(a: BitClause, b: &BitClause, _total_size_hint: u32) -> (r: MergeResult<BitClause>) {
        // Where both clauses hold a variable, their sign bits must agree: the
        // symmetric difference of the sign sets, cut down to the shared
        // variables, is empty.
        let conflicts = roaring_and(
            roaring_and(roaring_xor(roaring_clone(&a.signs), &b.signs), &a.literals),
            &b.literals,
        );
        if !roaring_is_empty(&conflicts) {
            proof {
                let v = choose|v: nat| roaring_items(conflicts).contains(v);
                assert(roaring_items(conflicts).contains(v) || roaring_items(conflicts)
                    =~= Set::<nat>::empty());
                assert(a.lits().contains_key(v) && b.lits().contains_key(v));
                assert(a.lits()[v] != b.lits()[v]);
            }
            MergeResult::Incompatible
        } else {
            let ghost la = a.lits();
            let ghost lb = b.lits();
            proof {
                assert forall|v: nat|
                    la.contains_key(v) && lb.contains_key(v) implies la[v] == lb[v] by {
                    assert(!roaring_items(conflicts).contains(v));
                }
            }
            let r = BitClause {
                literals: roaring_or(a.literals, &b.literals),
                signs: roaring_or(a.signs, &b.signs),
            };
            assert(r.lits() =~= combine(la, lb));
            MergeResult::Merged(r)
        }
    }

    fn from_vec(vec: Vec<Vec<(u32, Sign)>>) -> (r: DNF<BitClause>) {
        let mut out: Vec<BitClause> = Vec::new();
        let mut i: usize = 0;
        while i < vec.len()
            invariant
                i <= vec@.len(),
                out@.len() == i,
                forall|j: int|
                    0 <= j < vec@.len() ==> consistent(#[trigger] vec@[j]@) && vars_below(
                        vec@[j]@,
                        u32::MAX as nat,
                    ),
                forall|j: int|
                    0 <= j < i ==> (#[trigger] out@[j]).wf() && out@[j].lits() == raw_literals(
                        vec@[j]@,
                    ),
            decreases vec@.len() - i,
        {
            out.push(BitClause::from_literals(&vec[i]));
            i = i + 1;
        }
        DNF::from(out)
    }

    fn len(&self) -> (r: usize) {
        assert(self.lits().dom() =~= self.present());
        proof {
            crate::lemma_below_len(self.present(), u32::MAX as nat);
        }
        roaring_len(&self.literals) as usize
    }
}

} // verus!
