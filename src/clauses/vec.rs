//! Ordered-list clauses: literals sorted by variable, merged by a linear
//! merge-sort style scan.
use vstd::prelude::*;

use crate::clauses::{Merge, MergeResult};
use crate::dnf::{
    combine, compatible, consistent, lemma_prefix, lemma_push, lemma_raw_literals, raw_literals,
    vars_below, Literals, Sign, DNF,
};

verus! {

/// A strictly increasing list of variables is a consistent raw list.
pub open spec fn strictly_sorted(s: Seq<(u32, Sign)>) -> bool {
    forall|i: int, j: int| 0 <= i < j < s.len() ==> s[i].0 < s[j].0
}

/// Literals kept sorted by variable id, each variable once.
#[derive(Debug)]
pub struct VecClause(Vec<(u32, Sign)>);

pub proof fn lemma_sorted_consistent(s: Seq<(u32, Sign)>)
    requires
        strictly_sorted(s),
    ensures
        consistent(s),
{
    assert forall|i: int, j: int|
        0 <= i < s.len() && 0 <= j < s.len() && s[i].0 == s[j].0 implies s[i].1 == s[j].1 by {
        if i < j {
            assert(s[i].0 < s[j].0);
        } else if j < i {
            assert(s[j].0 < s[i].0);
        }
    }
}

impl VecClause {
    /// Hands out the sorted literal list.
    pub fn into_vec(self) -> (r: Vec<(u32, Sign)>)
        ensures
            r@ == self.list(),
    {
        self.0
    }

    /// The sorted literal list.
    pub closed spec fn list(&self) -> Seq<(u32, Sign)> {
        self.0@
    }

    /// Sorts and deduplicates a consistent raw literal list.
    pub fn from_literals(list: &Vec<(u32, Sign)>) -> (r: VecClause)
        requires
            consistent(list@),
        ensures
            r.wf(),
            r.lits() == raw_literals(list@),
    {
        let mut out: Vec<(u32, Sign)> = Vec::new();
        let mut k: usize = 0;
        while k < list.len()
            invariant
                k <= list@.len(),
                consistent(list@),
                strictly_sorted(out@),
                raw_literals(out@) == raw_literals(list@.subrange(0, k as int)),
            decreases list@.len() - k,
        {
            let (v, s) = list[k];
            proof {
                lemma_prefix(list@, k as int);
                lemma_sorted_consistent(out@);
                lemma_raw_literals(out@);
                lemma_raw_literals(list@.subrange(0, k as int));
            }
            let mut p: usize = 0;
            while p < out.len() && out[p].0 < v
                invariant
                    p <= out@.len(),
                    strictly_sorted(out@),
                    forall|i: int| 0 <= i < p ==> out@[i].0 < v,
                decreases out@.len() - p,
            {
                p = p + 1;
            }
            if p < out.len() && out[p].0 == v {
                proof {
                    let sub = list@.subrange(0, k as int);
                    assert(out@[p as int].0 as nat == v as nat);
                    assert(raw_literals(sub).contains_key(v as nat));
                    let i = choose|i: int| 0 <= i < sub.len() && sub[i].0 as nat == v as nat;
                    assert(sub[i] == list@[i]);
                    assert(list@[i].1 == s);
                    assert(raw_literals(out@)[v as nat] == out@[p as int].1);
                    assert(raw_literals(out@).insert(v as nat, s) =~= raw_literals(out@));
                }
            } else {
                let ghost before = out@;
                out.insert(p, (v, s));
                proof {
                    assert(strictly_sorted(out@));
                    lemma_sorted_consistent(out@);
                    lemma_raw_literals(out@);
                    assert forall|u: nat|
                        raw_literals(out@).contains_key(u) == raw_literals(before).insert(
                            v as nat,
                            s,
                        ).contains_key(u) by {
                        if raw_literals(out@).contains_key(u) {
                            let i = choose|i: int| 0 <= i < out@.len() && out@[i].0 as nat == u;
                            if i < p {
                                assert(before[i] == out@[i]);
                            } else if i > p {
                                assert(before[i - 1] == out@[i]);
                            }
                        }
                        if raw_literals(before).contains_key(u) {
                            let i = choose|i: int|
                                0 <= i < before.len() && before[i].0 as nat == u;
                            if i < p {
                                assert(before[i] == out@[i]);
                            } else {
                                assert(before[i] == out@[i + 1]);
                            }
                        }
                        if u == v as nat {
                            assert(out@[p as int].0 as nat == u);
                        }
                    }
                    assert forall|u: nat| #[trigger]
                        raw_literals(out@).contains_key(u) implies raw_literals(out@)[u]
                        == raw_literals(before).insert(v as nat, s)[u] by {
                        let i = choose|i: int| 0 <= i < out@.len() && out@[i].0 as nat == u;
                        if i < p {
                            assert(before[i] == out@[i]);
                        } else if i > p {
                            assert(before[i - 1] == out@[i]);
                        }
                    }
                    assert(raw_literals(out@) =~= raw_literals(before).insert(v as nat, s));
                }
            }
            k = k + 1;
        }
        assert(list@.subrange(0, list@.len() as int) =~= list@);
        VecClause(out)
    }
}

impl Merge for VecClause {
    open spec fn wf(&self) -> bool {
        strictly_sorted(self.list())
    }

    open spec fn lits(&self) -> Literals {
        raw_literals(self.list())
    }

    fn new_empty() -> (r: Self) {
        let r = VecClause(Vec::new());
        assert(r.lits() =~= Map::<nat, Sign>::empty());
        r
    }

    fn duplicate(&self) -> (r: Self) {
        let mut out: Vec<(u32, Sign)> = Vec::new();
        let mut i: usize = 0;
        while i < self.0.len()
            invariant
                i <= self.0@.len(),
                out@ == self.0@.subrange(0, i as int),
            decreases self.0@.len() - i,
        {
            out.push(self.0[i]);
            i = i + 1;
            assert(out@ =~= self.0@.subrange(0, i as int));
        }
        assert(out@ =~= self.0@);
        VecClause(out)
    }

    fn merge(a: VecClause, b: &VecClause, _total_size_hint: u32) -> (r: MergeResult<VecClause>) {
        let mut output: Vec<(u32, Sign)> = Vec::with_capacity(a.0.len());
        let mut ia: usize = 0;
        let mut ib: usize = 0;
        let ghost sa = a.0@;
        let ghost sb = b.0@;
        proof {
            lemma_sorted_consistent(sa);
            lemma_sorted_consistent(sb);
            lemma_raw_literals(sa);
            lemma_raw_literals(sb);
        }
        loop
            invariant
                sa == a.0@,
                sb == b.0@,
                strictly_sorted(sa),
                strictly_sorted(sb),
                ia <= sa.len(),
                ib <= sb.len(),
                strictly_sorted(output@),
                forall|k: int|
                    0 <= k < output@.len() ==> (ia < sa.len() ==> output@[k].0 < sa[ia as int].0)
                        && (ib < sb.len() ==> output@[k].0 < sb[ib as int].0),
                compatible(
                    raw_literals(sa.subrange(0, ia as int)),
                    raw_literals(sb.subrange(0, ib as int)),
                ),
                raw_literals(output@) == combine(
                    raw_literals(sa.subrange(0, ia as int)),
                    raw_literals(sb.subrange(0, ib as int)),
                ),
            decreases sa.len() + sb.len() - ia - ib,
        {
            let ghost pa = raw_literals(sa.subrange(0, ia as int));
            let ghost pb = raw_literals(sb.subrange(0, ib as int));
            proof {
                lemma_sorted_consistent(output@);
                lemma_raw_literals(output@);
                lemma_sorted_consistent(sa.subrange(0, ia as int));
                lemma_sorted_consistent(sb.subrange(0, ib as int));
                lemma_raw_literals(sa.subrange(0, ia as int));
                lemma_raw_literals(sb.subrange(0, ib as int));
            }
            if ia < a.0.len() && ib < b.0.len() {
                let x = a.0[ia];
                let y = b.0[ib];
                if x.0 == y.0 {
                    if x.1 != y.1 {
                        proof {
                            lemma_raw_literals(sa);
                            lemma_raw_literals(sb);
                            assert(raw_literals(sa)[sa[ia as int].0 as nat] == x.1);
                            assert(raw_literals(sb)[sb[ib as int].0 as nat] == y.1);
                            assert(raw_literals(sa).contains_key(x.0 as nat));
                            assert(raw_literals(sb).contains_key(x.0 as nat));
                        }
                        return MergeResult::Incompatible;
                    }
                    proof {
                        lemma_prefix(sa, ia as int);
                        lemma_prefix(sb, ib as int);
                        lemma_push(output@, x);
                        assert(combine(pa.insert(x.0 as nat, x.1), pb.insert(y.0 as nat, y.1))
                            =~= combine(pa, pb).insert(x.0 as nat, x.1));
                    }
                    output.push(x);
                    ia = ia + 1;
                    ib = ib + 1;
                } else if x.0 < y.0 {
                    proof {
                        lemma_prefix(sa, ia as int);
                        lemma_push(output@, x);
                        if pb.contains_key(x.0 as nat) {
                            assert(raw_literals(output@).contains_key(x.0 as nat));
                            let j = choose|j: int| 0 <= j < output@.len() && output@[j].0 as nat == x.0 as nat;
                        }
                        assert(combine(pa.insert(x.0 as nat, x.1), pb) =~= combine(pa, pb).insert(
                            x.0 as nat,
                            x.1,
                        ));
                    }
                    output.push(x);
                    ia = ia + 1;
                } else {
                    proof {
                        lemma_prefix(sb, ib as int);
                        lemma_push(output@, y);
                        if pa.contains_key(y.0 as nat) {
                            assert(raw_literals(output@).contains_key(y.0 as nat));
                            let j = choose|j: int| 0 <= j < output@.len() && output@[j].0 as nat == y.0 as nat;
                        }
                        assert(combine(pa, pb.insert(y.0 as nat, y.1)) =~= combine(pa, pb).insert(
                            y.0 as nat,
                            y.1,
                        ));
                    }
                    output.push(y);
                    ib = ib + 1;
                }
            } else if ia < a.0.len() {
                let x = a.0[ia];
                proof {
                    lemma_prefix(sa, ia as int);
                    lemma_push(output@, x);
                    if pb.contains_key(x.0 as nat) {
                        assert(raw_literals(output@).contains_key(x.0 as nat));
                        let j = choose|j: int| 0 <= j < output@.len() && output@[j].0 as nat == x.0 as nat;
                    }
                    assert(combine(pa.insert(x.0 as nat, x.1), pb) =~= combine(pa, pb).insert(
                        x.0 as nat,
                        x.1,
                    ));
                }
                output.push(x);
                ia = ia + 1;
            } else if ib < b.0.len() {
                let y = b.0[ib];
                proof {
                    lemma_prefix(sb, ib as int);
                    lemma_push(output@, y);
                    if pa.contains_key(y.0 as nat) {
                        assert(raw_literals(output@).contains_key(y.0 as nat));
                        let j = choose|j: int| 0 <= j < output@.len() && output@[j].0 as nat == y.0 as nat;
                    }
                    assert(combine(pa, pb.insert(y.0 as nat, y.1)) =~= combine(pa, pb).insert(
                        y.0 as nat,
                        y.1,
                    ));
                }
                output.push(y);
                ib = ib + 1;
            } else {
                assert(sa.subrange(0, ia as int) =~= sa);
                assert(sb.subrange(0, ib as int) =~= sb);
                return MergeResult::Merged(VecClause(output));
            }
        }
    }

    fn from_vec(vec: Vec<Vec<(u32, Sign)>>) -> (r: DNF<VecClause>) {
        let mut out: Vec<VecClause> = Vec::new();
        let mut i: usize = 0;
        while i < vec.len()
            invariant
                i <= vec@.len(),
                out@.len() == i,
                forall|j: int|
                    0 <= j < vec@.len() ==> consistent(#[trigger] vec@[j]@) && vars_below(
                        vec@[j]@,
                        u32::MAX as nat,
                    ),
                forall|j: int|
                    0 <= j < i ==> (#[trigger] out@[j]).wf() && out@[j].lits() == raw_literals(
                        vec@[j]@,
                    ),
            decreases vec@.len() - i,
        {
            out.push(VecClause::from_literals(&vec[i]));
            i = i + 1;
        }
        DNF::from(out)
    }

    fn len(&self) -> (r: usize) {
        proof {
            lemma_sorted_consistent(self.0@);
            lemma_raw_literals(self.0@);
            lemma_sorted_len(self.0@);
        }
        self.0.len()
    }
}

proof fn lemma_sorted_len(s: Seq<(u32, Sign)>)
    requires
        strictly_sorted(s),
    ensures
        raw_literals(s).len() == s.len(),
    decreases s.len(),
{
    if s.len() > 0 {
        let t = s.drop_last();
        assert(strictly_sorted(t));
        lemma_sorted_len(t);
        lemma_sorted_consistent(t);
        lemma_raw_literals(t);
        if raw_literals(t).contains_key(s.last().0 as nat) {
            let i = choose|i: int| 0 <= i < t.len() && t[i].0 as nat == s.last().0 as nat;
            assert(s[i].0 < s[s.len() - 1].0);
        }
    }
}

} // verus!
