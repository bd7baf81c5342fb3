//! Dual-bitset clauses: one bitset of present variables and one of the
//! variables that are positive.
use bit_set::BitSet;

use vstd::prelude::*;

use crate::clauses::{Merge, MergeResult};
use crate::dnf::{
    combine, compatible, consistent, lemma_prefix, lemma_raw_literals, raw_literals, vars_below,
    Literals, Sign, DNF,
};

verus! {

/// A `bit_set::BitSet`, held opaquely: its members are `bit_set_items`.
#[verifier::external_body]
#[derive(Debug)]
pub struct VarBits {
    set: BitSet,
}

/// The members of a bitset.
pub uninterp spec fn bit_set_items(s: VarBits) -> Set<nat>;

/// Relies on `BitSet::new`: a new set is empty.
#[verifier::external_body]
fn bit_set_new() -> (r: VarBits)
    ensures
        bit_set_items(r) == Set::<nat>::empty(),
{
    VarBits { set: BitSet::new() }
}

/// Relies on `BitSet::clone`: the copy has the same members.
#[verifier::external_body]
fn bit_set_clone(s: &VarBits) -> (r: VarBits)
    ensures
        bit_set_items(r) == bit_set_items(*s),
{
    VarBits { set: s.set.clone() }
}

/// Relies on `BitSet::insert`: adds `value`, and tells whether it was absent.
#[verifier::external_body]
fn bit_set_insert(s: &mut VarBits, value: usize) -> (r: bool)
    requires
        value < usize::MAX,
    ensures
        bit_set_items(*final(s)) == bit_set_items(*old(s)).insert(value as nat),
        r == !bit_set_items(*old(s)).contains(value as nat),
{
    s.set.insert(value)
}

/// Relies on `BitSet::contains`: membership of `value`.
#[verifier::external_body]
fn bit_set_contains(s: &VarBits, value: usize) -> (r: bool)
    ensures
        r == bit_set_items(*s).contains(value as nat),
{
    s.set.contains(value)
}

/// Relies on `BitSet::count`: the number of members.
#[verifier::external_body]
fn bit_set_count(s: &VarBits) -> (r: usize)
    ensures
        r == bit_set_items(*s).len(),
{
    s.set.count()
}

/// Relies on `BitSet::iter`: each member once.
#[verifier::external_body]
fn bit_set_elements(s: &VarBits) -> (r: Vec<usize>)
    ensures
        r@.no_duplicates(),
        forall|v: nat| bit_set_items(*s).contains(v) <==> exists|i: int|
            0 <= i < r@.len() && r@[i] as nat == v,
{
    s.set.iter().collect()
}

/// A clause as a bitset of its variables and a bitset of its positive
/// variables.
#[derive(Debug)]
pub struct BitClause {
    literals: VarBits,
    signs: VarBits,
}

impl BitClause {
    /// The variables present.
    pub closed spec fn present(&self) -> Set<nat> {
        bit_set_items(self.literals)
    }

    /// The variables that are positive.
    pub closed spec fn positive(&self) -> Set<nat> {
        bit_set_items(self.signs)
    }

    /// The bitsets of a consistent raw literal list.
    pub fn from_literals(list: &Vec<(u32, Sign)>) -> (r: BitClause)
        requires
            consistent(list@),
            vars_below(list@, u32::MAX as nat),
        ensures
            r.wf(),
            r.lits() == raw_literals(list@),
    {
        let mut out = BitClause { literals: bit_set_new(), signs: bit_set_new() };
        let mut k: usize = 0;
        assert(out.lits() =~= raw_literals(list@.subrange(0, 0)));
        while k < list.len()
            invariant
                k <= list@.len(),
                consistent(list@),
                vars_below(list@, u32::MAX as nat),
                out.wf(),
                out.lits() == raw_literals(list@.subrange(0, k as int)),
            decreases list@.len() - k,
        {
            let (l, s) = list[k];
            let ghost before = out.lits();
            proof {
                lemma_prefix(list@, k as int);
                let sub = list@.subrange(0, k as int);
                lemma_raw_literals(sub);
                if before.contains_key(l as nat) {
                    let i = choose|i: int| 0 <= i < sub.len() && sub[i].0 as nat == l as nat;
                    assert(sub[i] == list@[i]);
                    assert(before[l as nat] == s);
                }
            }
            bit_set_insert(&mut out.literals, l as usize);
            if s == Sign::Positive {
                bit_set_insert(&mut out.signs, l as usize);
            }
            assert(out.lits() =~= before.insert(l as nat, s));
            k = k + 1;
        }
        assert(list@.subrange(0, list@.len() as int) =~= list@);
        out
    }
}

impl Merge for BitClause {
    open spec fn wf(&self) -> bool {
        &&& self.positive().subset_of(self.present())
        &&& forall|v: nat| #[trigger] self.present().contains(v) ==> v < u32::MAX
    }

    open spec fn lits(&self) -> Literals {
        Map::new(
            |v: nat| self.present().contains(v),
            |v: nat|
                if self.positive().contains(v) {
                    Sign::Positive
                } else {
                    Sign::Negative
                },
        )
    }

    fn new_empty() -> (r: Self) {
        let r = BitClause { literals: bit_set_new(), signs: bit_set_new() };
        assert(r.lits() =~= Map::<nat, Sign>::empty());
        r
    }

    fn duplicate(&self) -> (r: Self) {
        let r = BitClause {
            literals: bit_set_clone(&self.literals),
            signs: bit_set_clone(&self.signs),
        };
        assert(r.lits() =~= self.lits());
        r
    }

    fn merge(a: BitClause, b: &BitClause, _total_size_hint: u32) -> (r: MergeResult<BitClause>) {
        let ghost la = a.lits();
        let ghost lb = b.lits();
        let elements = bit_set_elements(&b.literals);
        let mut out = a;
        let mut i: usize = 0;
        let ghost mut done: Set<nat> = Set::empty();
        while i < elements.len()
            invariant
                la == a.lits(),
                lb == b.lits(),
                b.wf(),
                i <= elements@.len(),
                elements@.no_duplicates(),
                forall|v: nat| b.present().contains(v) <==> exists|j: int|
                    0 <= j < elements@.len() && elements@[j] as nat == v,
                done == Set::new(|v: nat| exists|j: int| 0 <= j < i && elements@[j] as nat == v),
                out.wf(),
                out.lits() == combine(la, lb.restrict(done)),
                compatible(la, lb.restrict(done)),
            decreases elements@.len() - i,
        {
            let l = elements[i];
            assert(b.present().contains(l as nat));
            let ghost before = out.lits();
            let ghost done2 = done.insert(l as nat);
            assert(!done.contains(l as nat)) by {
                if done.contains(l as nat) {
                    let j = choose|j: int| 0 <= j < i && elements@[j] as nat == l as nat;
                    assert(elements@[j] == elements@[i as int]);
                }
            }
            let ghost positive_before = out.positive();
            if !bit_set_insert(&mut out.literals, l) {
                assert(before.contains_key(l as nat));
                assert(!lb.restrict(done).contains_key(l as nat));
                assert(la.contains_key(l as nat) && lb.contains_key(l as nat));
                assert(la[l as nat] == before[l as nat]);
                assert(out.positive() == positive_before);
                if bit_set_contains(&out.signs, l) != bit_set_contains(&b.signs, l) {
                    assert(la[l as nat] != lb[l as nat]);
                    return MergeResult::Incompatible;
                }
                assert(out.lits() =~= before);
                assert(combine(la, lb.restrict(done2)) =~= before);
            } else {
                if bit_set_contains(&b.signs, l) {
                    bit_set_insert(&mut out.signs, l);
                }
                assert(out.lits() =~= before.insert(l as nat, lb[l as nat]));
                assert(combine(la, lb.restrict(done2)) =~= before.insert(l as nat, lb[l as nat]));
            }
            assert(Set::new(|v: nat| exists|j: int| 0 <= j < i + 1 && elements@[j] as nat == v)
                =~= done2);
            proof {
                done = done2;
            }
            i = i + 1;
        }
        assert(lb.restrict(done) =~= lb);
        MergeResult::Merged(out)
    }

    fn from_vec(vec: Vec<Vec<(u32, Sign)>>) -> (r: DNF<BitClause>) {
        let mut out: Vec<BitClause> = Vec::new();
        let mut i: usize = 0;
        while i < vec.len()
            invariant
                i <= vec@.len(),
                out@.len() == i,
                forall|j: int|
                    0 <= j < vec@.len() ==> consistent(#[trigger] vec@[j]@) && vars_below(
                        vec@[j]@,
                        u32::MAX as nat,
                    ),
                forall|j: int|
                    0 <= j < i ==> (#[trigger] out@[j]).wf() && out@[j].lits() == raw_literals(
                        vec@[j]@,
                    ),
            decreases vec@.len() - i,
        {
            out.push(BitClause::from_literals(&vec[i]));
            i = i + 1;
        }
        DNF::from(out)
    }

    fn len(&self) -> (r: usize) {
        assert(self.lits().dom() =~= self.present());
        proof {
            crate::lemma_below_len(self.present(), u32::MAX as nat + 1);
        }
        bit_set_count(&self.literals)
    }
}

} // verus!
