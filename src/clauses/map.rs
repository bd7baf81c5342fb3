//! Hash-indexed clauses: a map from variable to sign; merging inserts the
//! literals of one clause into the other.
use std::collections::HashMap;

use vstd::prelude::*;
use vstd::relations::injective_on;
use vstd::set_lib::lemma_map_size;

use crate::clauses::{Merge, MergeResult};
use crate::dnf::{
    combine, compatible, consistent, lemma_prefix, raw_literals, vars_below, Literals, Sign, DNF,
};

verus! {

broadcast use vstd::std_specs::hash::group_hash_axioms;

/// The literals of a map keyed by 32-bit variables.
pub open spec fn widen(m: Map<u32, Sign>) -> Literals {
    Map::new(|v: nat| v <= u32::MAX && m.contains_key(v as u32), |v: nat| m[v as u32])
}

proof fn lemma_widen_insert(m: Map<u32, Sign>, k: u32, s: Sign)
    ensures
        widen(m.insert(k, s)) == widen(m).insert(k as nat, s),
{
    assert(widen(m.insert(k, s)) =~= widen(m).insert(k as nat, s));
}

proof fn lemma_widen_len(m: Map<u32, Sign>)
    requires
        m.dom().finite(),
    ensures
        widen(m).len() == m.len(),
{
    let f = |k: u32| k as nat;
    assert(injective_on(f, m.dom()));
    assert(m.dom().map(f) =~= widen(m).dom()) by {
        assert forall|v: nat| widen(m).dom().contains(v) implies m.dom().map(f).contains(v) by {
            assert(f(v as u32) == v);
        }
    }
    lemma_map_size(m.dom(), widen(m).dom(), f);
}

/// A variable-to-sign map.
#[derive(Debug)]
pub struct MapClause(HashMap<u32, Sign>);

impl MapClause {
    /// The map held.
    pub closed spec fn table(&self) -> Map<u32, Sign> {
        self.0@
    }

    /// The map of a consistent raw literal list.
    pub fn from_literals(list: &Vec<(u32, Sign)>) -> (r: MapClause)
        requires
            consistent(list@),
        ensures
            r.wf(),
            r.lits() == raw_literals(list@),
    {
        let mut m: HashMap<u32, Sign> = HashMap::new();
        let mut k: usize = 0;
        assert(widen(m@) =~= raw_literals(list@.subrange(0, 0)));
        while k < list.len()
            invariant
                k <= list@.len(),
                widen(m@) == raw_literals(list@.subrange(0, k as int)),
            decreases list@.len() - k,
        {
            let (v, s) = list[k];
            proof {
                lemma_prefix(list@, k as int);
                lemma_widen_insert(m@, v, s);
            }
            m.insert(v, s);
            k = k + 1;
        }
        assert(list@.subrange(0, list@.len() as int) =~= list@);
        MapClause(m)
    }
}

impl Merge for MapClause {
    open spec fn wf(&self) -> bool {
        true
    }

    open spec fn lits(&self) -> Literals {
        widen(self.table())
    }

    fn new_empty() -> (r: Self) {
        let r = MapClause(HashMap::new());
        assert(r.lits() =~= Map::<nat, Sign>::empty());
        r
    }

    fn duplicate(&self) -> (r: Self) {
        MapClause(self.0.clone())
    }

    fn merge(a: MapClause, b: &MapClause, _total_size_hint: u32) -> (r: MergeResult<MapClause>) {
        let ghost a0 = a.0@;
        assert(a.lits() == widen(a0));
        assert(b.lits() == widen(b.0@));
        let mut out = a;
        let ghost bm = b.0@;
        let ghost mut done: Set<u32> = Set::empty();
        for e in it: b.0.iter()
            invariant
                bm == b.0@,
                a0 == a.0@,
                it.seq().len() == bm.len(),
                it.seq().no_duplicates(),
                forall|i: int|
                    0 <= i < it.seq().len() ==> bm.contains_key(*it.seq()[i].0) && bm[*it.seq()[i].0]
                        == *it.seq()[i].1,
                forall|k: u32|
                    bm.contains_key(k) ==> exists|i: int|
                        0 <= i < it.seq().len() && *it.seq()[i].0 == k,
                done == Set::new(
                    |k: u32| exists|i: int| 0 <= i < it.index() && *it.seq()[i].0 == k,
                ),
                it.index() == it.seq().len() ==> done == bm.dom(),
                out.0@ == a0.union_prefer_right(bm.restrict(done)),
                forall|k: u32| done.contains(k) && a0.contains_key(k) ==> a0[k] == bm[k],
        {
            let (literal, sign) = e;
            let ghost idx = it.index();
            let ghost seen = Set::new(|k: u32| exists|i: int| 0 <= i < idx && *it.seq()[i].0 == k);
            let ghost seen2 = Set::new(
                |k: u32| exists|i: int| 0 <= i < idx + 1 && *it.seq()[i].0 == k,
            );
            proof {
                assert(*it.seq()[idx].0 == *literal);
                assert(!seen.contains(*literal)) by {
                    if seen.contains(*literal) {
                        let i = choose|i: int| 0 <= i < idx && *it.seq()[i].0 == *literal;
                        assert(it.seq()[i] == it.seq()[idx]);
                    }
                }
                assert(seen2 =~= seen.insert(*literal));
            }
            let ghost before = out.0@;
            assert(!done.contains(*literal));
            assert(bm[*literal] == *sign);
            match out.0.insert(*literal, *sign) {
                Some(previous) => {
                    if previous != *sign {
                        proof {
                            assert(before.contains_key(*literal));
                            assert(!bm.restrict(done).contains_key(*literal));
                            assert(a0.contains_key(*literal));
                            assert(a0[*literal] == previous);
                            assert(widen(a0).contains_key(*literal as nat));
                            assert(widen(bm).contains_key(*literal as nat));
                            assert(widen(a0)[*literal as nat] != widen(bm)[*literal as nat]);
                            assert(!compatible(widen(a0), widen(bm)));
                        }
                        return MergeResult::Incompatible;
                    }
                },
                None => {},
            }
            proof {
                assert(out.0@ =~= a0.union_prefer_right(bm.restrict(seen2)));
                if idx + 1 == it.seq().len() {
                    assert forall|k: u32| bm.contains_key(k) implies seen2.contains(k) by {
                        let i = choose|i: int| 0 <= i < it.seq().len() && *it.seq()[i].0 == k;
                    }
                    assert(seen2 =~= bm.dom());
                }
                done = done.insert(*literal);
            }
        }
        proof {
            assert(bm.restrict(done) =~= bm);
            assert(widen(out.0@) =~= combine(widen(a0), widen(bm)));
            assert(compatible(widen(a0), widen(bm)));
        }
        MergeResult::Merged(out)
    }

    fn from_vec(vec: Vec<Vec<(u32, Sign)>>) -> (r: DNF<MapClause>) {
        let mut out: Vec<MapClause> = Vec::new();
        let mut i: usize = 0;
        while i < vec.len()
            invariant
                i <= vec@.len(),
                out@.len() == i,
                forall|j: int|
                    0 <= j < vec@.len() ==> consistent(#[trigger] vec@[j]@) && vars_below(
                        vec@[j]@,
                        u32::MAX as nat,
                    ),
                forall|j: int|
                    0 <= j < i ==> (#[trigger] out@[j]).wf() && out@[j].lits() == raw_literals(
                        vec@[j]@,
                    ),
            decreases vec@.len() - i,
        {
            out.push(MapClause::from_literals(&vec[i]));
            i = i + 1;
        }
        DNF::from(out)
    }

    fn len(&self) -> (r: usize) {
        proof {
            lemma_widen_len(self.0@);
        }
        self.0.len()
    }
}

} // verus!
