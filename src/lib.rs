//! Satisfiability by inclusion–exclusion over the negated clauses of a CNF
//! formula, truncated as soon as a Bonferroni bound decides the answer.
pub mod clauses;
pub mod counters;
pub mod dnf;
pub mod load;
pub mod subsets;

use vstd::arithmetic::power2::pow2;
use vstd::prelude::*;

pub use crate::clauses::{Merge, MergeResult, SolutionResult};
use crate::counters::Counter;
use crate::dnf::{combine, compatible, Literals, DNF};

verus! {

/// The literals of each clause of a DNF, in order.
pub open spec fn clause_literals<T: Merge>(dnf: &DNF<T>) -> Seq<Literals> {
    dnf@.map_values(|c: T| c.lits())
}

/// The entries obtained by merging `lits` with each clause of index in
/// `[start, hi)`, in index order: the compatible merges, each paired with
/// the index after the clause it took.
pub open spec fn extensions(lits: Literals, start: nat, clauses: Seq<Literals>, hi: nat) -> Seq<
    (nat, Literals),
>
    decreases hi,
{
    if hi <= start {
        seq![]
    } else {
        let prev = extensions(lits, start, clauses, (hi - 1) as nat);
        let j = hi - 1;
        if compatible(lits, clauses[j]) {
            prev.push((hi, combine(lits, clauses[j])))
        } else {
            prev
        }
    }
}

/// The successors of the first `i` entries of a generation, in order.
pub open spec fn next_generation(g: Seq<(nat, Literals)>, clauses: Seq<Literals>, i: nat) -> Seq<
    (nat, Literals),
>
    decreases i,
{
    if i == 0 {
        seq![]
    } else {
        next_generation(g, clauses, (i - 1) as nat) + extensions(
            g[i - 1].1,
            g[i - 1].0,
            clauses,
            clauses.len(),
        )
    }
}

/// Generation `k`: every ascending sequence of `k` clause indices whose
/// merge succeeds, as the index after its last clause and the merged
/// literals.
pub open spec fn generation(clauses: Seq<Literals>, k: nat) -> Seq<(nat, Literals)>
    decreases k,
{
    if k == 0 {
        seq![(0nat, Map::empty())]
    } else {
        let g = generation(clauses, (k - 1) as nat);
        next_generation(g, clauses, g.len())
    }
}

/// Number of assignments of `num_vars` variables consistent with `lits`.
pub open spec fn assignments(lits: Literals, num_vars: nat) -> nat {
    pow2((num_vars - lits.len()) as nat)
}

/// Sum of the assignment counts of the first `i` entries.
pub open spec fn weight(g: Seq<(nat, Literals)>, num_vars: nat, i: nat) -> int
    decreases i,
{
    if i == 0 {
        0
    } else {
        weight(g, num_vars, (i - 1) as nat) + assignments(g[i - 1].1, num_vars)
    }
}

/// The inclusion–exclusion series truncated after subsets of size `k`:
/// odd sizes count positively, even sizes negatively.
pub open spec fn partial_sum(clauses: Seq<Literals>, num_vars: nat, k: nat) -> int
    decreases k,
{
    if k == 0 {
        0
    } else {
        let g = generation(clauses, k);
        let w = weight(g, num_vars, g.len());
        partial_sum(clauses, num_vars, (k - 1) as nat) + if k % 2 == 1 {
            w
        } else {
            -w
        }
    }
}

/// The verdict and depth of a search that has completed the generations
/// of size up to `c` and may go up to size `max_size`.
pub open spec fn outcome(clauses: Seq<Literals>, num_vars: nat, max_size: nat, c: nat) -> (
    SolutionResult,
    nat,
)
    decreases max_size - c,
{
    if c >= max_size {
        (SolutionResult::Inconclusive, max_size)
    } else if generation(clauses, c).len() == 0 {
        (SolutionResult::Inconclusive, c)
    } else if c % 2 == 1 && partial_sum(clauses, num_vars, c + 1) == pow2(num_vars) {
        (SolutionResult::Unsatisfiable, c + 1)
    } else if c % 2 == 0 && partial_sum(clauses, num_vars, c + 1) < pow2(num_vars) {
        (SolutionResult::Satisfiable, c + 1)
    } else {
        outcome(clauses, num_vars, max_size, c + 1)
    }
}

/// Every variable of every clause is below `num_vars`.
pub open spec fn vars_bounded(clauses: Seq<Literals>, num_vars: nat) -> bool {
    forall|i: int, v: nat|
        0 <= i < clauses.len() && #[trigger] clauses[i].contains_key(v) ==> v < num_vars
}

/// The executable entries hold the spec entries.
pub open spec fn entries_match<T: Merge>(e: Seq<(usize, T)>, g: Seq<(nat, Literals)>) -> bool {
    &&& e.len() == g.len()
    &&& forall|i: int|
        0 <= i < e.len() ==> (#[trigger] e[i]).0 as nat == g[i].0 && e[i].1.wf() && e[i].1.lits()
            == g[i].1
}

/// Entries whose variables are all below `num_vars` and whose next index
/// is at most `n`.
pub open spec fn entries_bounded(g: Seq<(nat, Literals)>, num_vars: nat, n: nat) -> bool {
    forall|i: int|
        0 <= i < g.len() ==> (#[trigger] g[i]).0 <= n && forall|v: nat|
            #[trigger] g[i].1.contains_key(v) ==> v < num_vars
}

proof fn lemma_extensions_bounded(
    lits: Literals,
    start: nat,
    clauses: Seq<Literals>,
    hi: nat,
    num_vars: nat,
)
    requires
        hi <= clauses.len(),
        vars_bounded(clauses, num_vars),
        forall|v: nat| #[trigger] lits.contains_key(v) ==> v < num_vars,
    ensures
        entries_bounded(extensions(lits, start, clauses, hi), num_vars, clauses.len()),
    decreases hi,
{
    if hi > start {
        lemma_extensions_bounded(lits, start, clauses, (hi - 1) as nat, num_vars);
        let j = hi - 1;
        assert forall|v: nat| #[trigger] combine(lits, clauses[j]).contains_key(v) implies v
            < num_vars by {
            if clauses[j].contains_key(v) {
            }
        }
    }
}

proof fn lemma_next_generation_bounded(
    g: Seq<(nat, Literals)>,
    clauses: Seq<Literals>,
    i: nat,
    num_vars: nat,
)
    requires
        i <= g.len(),
        vars_bounded(clauses, num_vars),
        entries_bounded(g, num_vars, clauses.len()),
    ensures
        entries_bounded(next_generation(g, clauses, i), num_vars, clauses.len()),
    decreases i,
{
    if i > 0 {
        lemma_next_generation_bounded(g, clauses, (i - 1) as nat, num_vars);
        let e = g[i - 1];
        lemma_extensions_bounded(e.1, e.0, clauses, clauses.len(), num_vars);
        let a = next_generation(g, clauses, (i - 1) as nat);
        let b = extensions(e.1, e.0, clauses, clauses.len());
        assert forall|k: int| 0 <= k < (a + b).len() implies (#[trigger] (a + b)[k]).0
            <= clauses.len() && forall|v: nat| #[trigger] (a + b)[k].1.contains_key(v) ==> v
            < num_vars by {
            if k < a.len() {
                assert((a + b)[k] == a[k]);
            } else {
                assert((a + b)[k] == b[k - a.len()]);
            }
        }
    }
}

/// Every generation only constrains variables below `num_vars`.
pub proof fn lemma_generation_bounded(clauses: Seq<Literals>, num_vars: nat, k: nat)
    requires
        vars_bounded(clauses, num_vars),
    ensures
        entries_bounded(generation(clauses, k), num_vars, clauses.len()),
    decreases k,
{
    if k > 0 {
        let g = generation(clauses, (k - 1) as nat);
        lemma_generation_bounded(clauses, num_vars, (k - 1) as nat);
        lemma_next_generation_bounded(g, clauses, g.len(), num_vars);
    } else {
        let g = generation(clauses, 0);
        assert forall|i: int| 0 <= i < g.len() implies (#[trigger] g[i]).0 <= clauses.len()
            && forall|v: nat| #[trigger] g[i].1.contains_key(v) ==> v < num_vars by {
            assert(g[i] == (0nat, Map::<nat, crate::dnf::Sign>::empty()));
        }
    }
}

/// A set of naturals below `n` has at most `n` members.
pub proof fn lemma_below_len(s: Set<nat>, n: nat)
    requires
        forall|v: nat| #[trigger] s.contains(v) ==> v < n,
    ensures
        s.finite(),
        s.len() <= n,
    decreases n,
{
    if n == 0 {
        assert(s =~= Set::empty());
    } else {
        let t = s.remove((n - 1) as nat);
        lemma_below_len(t, (n - 1) as nat);
        if s.contains((n - 1) as nat) {
            assert(s =~= t.insert((n - 1) as nat));
        } else {
            assert(s =~= t);
        }
    }
}

/// Decides satisfiability of the CNF whose negated clauses `dnf` holds, by
/// the inclusion–exclusion series over subsets of at most `max_size`
/// clauses. Returns the verdict, the subset size reached, and the counter
/// holding the truncated series at that size.
pub fn solve<Clause: Merge, Count: Counter>(
    dnf: &DNF<Clause>,
    num_vars: u32,
    num_clauses: u32,
    max_size: usize,
) -> (r: (SolutionResult, usize, Count))
    requires
        dnf.wf(),
        dnf@.len() == num_clauses,
        vars_bounded(clause_literals(dnf), num_vars as nat),
    ensures
        (r.0, r.1 as nat) == outcome(
            clause_literals(dnf),
            num_vars as nat,
            max_size as nat,
            0,
        ),
        r.2.wf(),
        r.2.value() == partial_sum(clause_literals(dnf), num_vars as nat, r.1 as nat),
{
    let ghost cl = clause_literals(dnf);
    let ghost nv = num_vars as nat;
    let mut sum: Count = Count::new(num_vars);
    let mut current_generation: Vec<(usize, Clause)> = Vec::new();
    current_generation.push((0, Clause::new_empty()));
    let mut combo_size: usize = 0;
    assert(entries_match(current_generation@, generation(cl, 0)));
    while combo_size < max_size
        invariant
            cl == clause_literals(dnf),
            nv == num_vars as nat,
            dnf.wf(),
            dnf@.len() == num_clauses,
            vars_bounded(cl, nv),
            combo_size <= max_size,
            outcome(cl, nv, max_size as nat, 0) == outcome(
                cl,
                nv,
                max_size as nat,
                combo_size as nat,
            ),
            entries_match(current_generation@, generation(cl, combo_size as nat)),
            sum.wf(),
            sum.value() == partial_sum(cl, nv, combo_size as nat),
        decreases max_size - combo_size,
    {
        let ghost g = generation(cl, combo_size as nat);
        proof {
            lemma_generation_bounded(cl, nv, combo_size as nat);
        }
        if current_generation.len() == 0 {
            return (SolutionResult::Inconclusive, combo_size, sum);
        }
        let mut next_gen: Vec<(usize, Clause)> = Vec::new();
        let mut i: usize = 0;
        while i < current_generation.len()
            invariant
                cl == clause_literals(dnf),
                dnf.wf(),
                dnf@.len() == num_clauses,
                g == generation(cl, combo_size as nat),
                entries_match(current_generation@, g),
                i <= current_generation@.len(),
                entries_match(next_gen@, next_generation(g, cl, i as nat)),
                entries_bounded(g, num_vars as nat, cl.len()),
            decreases current_generation@.len() - i,
        {
            let start = current_generation[i].0;
            let ghost before = next_gen@;
            assert(start <= num_clauses);
            let mut j: usize = start;
            while j < num_clauses as usize
                invariant
                    cl == clause_literals(dnf),
                    dnf.wf(),
                    dnf@.len() == num_clauses,
                    g == generation(cl, combo_size as nat),
                    entries_match(current_generation@, g),
                    i < current_generation@.len(),
                    start == g[i as int].0,
                    start <= j <= num_clauses,
                    entries_match(before, next_generation(g, cl, i as nat)),
                    entries_match(
                        next_gen@,
                        next_generation(g, cl, i as nat) + extensions(
                            g[i as int].1,
                            start as nat,
                            cl,
                            j as nat,
                        ),
                    ),
                decreases num_clauses - j,
            {
                let ghost prev = next_gen@;
                let ghost ext = extensions(g[i as int].1, start as nat, cl, (j + 1) as nat);
                let copy = current_generation[i].1.duplicate();
                let other = dnf.index(j);
                assert(other.lits() == cl[j as int]);
                match Clause::merge(copy, other, num_vars) {
                    MergeResult::Merged(merged) => {
                        next_gen.push((j + 1, merged));
                        proof {
                            let base = next_generation(g, cl, i as nat);
                            let old_ext = extensions(g[i as int].1, start as nat, cl, j as nat);
                            assert(ext == old_ext.push(
                                ((j + 1) as nat, combine(g[i as int].1, cl[j as int])),
                            ));
                            assert(base + ext =~= (base + old_ext).push(
                                ((j + 1) as nat, combine(g[i as int].1, cl[j as int])),
                            ));
                            assert forall|k: int| 0 <= k < next_gen@.len() implies (
                            #[trigger] next_gen@[k]).0 as nat == (base + ext)[k].0
                                && next_gen@[k].1.wf() && next_gen@[k].1.lits() == (base
                                + ext)[k].1 by {
                                if k < prev.len() {
                                    assert(next_gen@[k] == prev[k]);
                                }
                            }
                        }
                    },
                    MergeResult::Incompatible => {
                        assert(ext == extensions(g[i as int].1, start as nat, cl, j as nat));
                    },
                }
                j = j + 1;
            }
            proof {
                let base = next_generation(g, cl, i as nat);
                assert(next_generation(g, cl, (i + 1) as nat) == base + extensions(
                    g[i as int].1,
                    g[i as int].0,
                    cl,
                    cl.len(),
                ));
            }
            i = i + 1;
        }
        let ghost ng = generation(cl, (combo_size + 1) as nat);
        assert(ng == next_generation(g, cl, g.len()));
        proof {
            lemma_generation_bounded(cl, nv, (combo_size + 1) as nat);
        }
        let mut t: usize = 0;
        while t < next_gen.len()
            invariant
                nv == num_vars as nat,
                ng == generation(cl, (combo_size + 1) as nat),
                entries_match(next_gen@, ng),
                entries_bounded(ng, nv, cl.len()),
                t <= next_gen@.len(),
                sum.wf(),
                sum.value() == partial_sum(cl, nv, combo_size as nat) + if combo_size % 2 == 1 {
                    -weight(ng, nv, t as nat)
                } else {
                    weight(ng, nv, t as nat)
                },
            decreases next_gen@.len() - t,
        {
            let len = next_gen[t].1.len();
            proof {
                lemma_below_len(ng[t as int].1.dom(), nv);
            }
            let exponent = num_vars - len as u32;
            if combo_size % 2 == 1 {
                sum.sub(exponent);
            } else {
                sum.add(exponent);
            }
            t = t + 1;
        }
        current_generation = next_gen;
        if combo_size % 2 == 1 && sum.equal(num_vars) {
            return (SolutionResult::Unsatisfiable, combo_size + 1, sum);
        } else if combo_size % 2 == 0 && sum.less_than(num_vars) {
            return (SolutionResult::Satisfiable, combo_size + 1, sum);
        }
        combo_size = combo_size + 1;
    }
    (SolutionResult::Inconclusive, max_size, sum)
}

proof fn lemma_extensions_len(lits: Literals, start: nat, clauses: Seq<Literals>, hi: nat)
    ensures
        extensions(lits, start, clauses, hi).len() <= hi,
    decreases hi,
{
    if hi > start {
        lemma_extensions_len(lits, start, clauses, (hi - 1) as nat);
    }
}

proof fn lemma_next_generation_len(g: Seq<(nat, Literals)>, clauses: Seq<Literals>, i: nat)
    requires
        i <= g.len(),
    ensures
        next_generation(g, clauses, i).len() <= i * clauses.len(),
    decreases i,
{
    if i > 0 {
        lemma_next_generation_len(g, clauses, (i - 1) as nat);
        lemma_extensions_len(g[i - 1].1, g[i - 1].0, clauses, clauses.len());
        assert((i - 1) * clauses.len() + clauses.len() == i * clauses.len()) by (nonlinear_arith);
    }
}

/// Each entry of a generation has at most one successor per clause, so
/// generation `k + 1` has at most `num_clauses` times as many entries as
/// generation `k`.
pub proof fn lemma_generation_growth(clauses: Seq<Literals>, k: nat)
    ensures
        generation(clauses, k + 1).len() <= clauses.len() * generation(clauses, k).len(),
{
    let g = generation(clauses, k);
    lemma_next_generation_len(g, clauses, g.len());
    assert(g.len() * clauses.len() == clauses.len() * g.len()) by (nonlinear_arith);
}

/// DNFs built from the same raw clause batch, in any two representations or
/// twice in the same one, hold the same literals clause by clause; so every merge of their clauses
/// agrees on compatibility, and `solve` gives both the same verdict, depth
/// and counter value for every `num_vars` and `max_size`.
pub proof fn lemma_representations_agree<T: Merge, U: Merge>(
    x: DNF<T>,
    y: DNF<U>,
    raw: Seq<Seq<(u32, crate::dnf::Sign)>>,
)
    requires
        x@.len() == raw.len(),
        y@.len() == raw.len(),
        forall|i: int| 0 <= i < raw.len() ==> (#[trigger] x@[i]).lits() == crate::dnf::raw_literals(raw[i]),
        forall|i: int| 0 <= i < raw.len() ==> (#[trigger] y@[i]).lits() == crate::dnf::raw_literals(raw[i]),
    ensures
        clause_literals(&x) == clause_literals(&y),
        forall|i: int, j: int|
            0 <= i < raw.len() && 0 <= j < raw.len() ==> compatible(x@[i].lits(), x@[j].lits())
                == compatible(y@[i].lits(), y@[j].lits()),
        forall|num_vars: nat, max_size: nat|
            outcome(clause_literals(&x), num_vars, max_size, 0) == outcome(
                clause_literals(&y),
                num_vars,
                max_size,
                0,
            ),
        forall|num_vars: nat, k: nat|
            partial_sum(clause_literals(&x), num_vars, k) == partial_sum(
                clause_literals(&y),
                num_vars,
                k,
            ),
{
    assert(clause_literals(&x) =~= clause_literals(&y));
}

/// The literals of the clauses at `indices`, merged in order from the
/// empty clause, or `None` when some merge conflicts.
pub open spec fn merged(clauses: Seq<Literals>, indices: Seq<nat>) -> Option<Literals>
    decreases indices.len(),
{
    if indices.len() == 0 {
        Some(Map::empty())
    } else {
        match merged(clauses, indices.drop_last()) {
            Some(m) => if compatible(m, clauses[indices.last() as int]) {
                Some(combine(m, clauses[indices.last() as int]))
            } else {
                None
            },
            None => None,
        }
    }
}

/// Strictly increasing indices below `n`.
pub open spec fn ascending(indices: Seq<nat>, n: nat) -> bool {
    &&& forall|a: int, b: int| 0 <= a < b < indices.len() ==> indices[a] < indices[b]
    &&& forall|a: int| 0 <= a < indices.len() ==> indices[a] < n
}

/// The index after the last of `indices`, or 0 when there is none.
pub open spec fn next_index(indices: Seq<nat>) -> nat {
    if indices.len() == 0 {
        0
    } else {
        indices.last() + 1
    }
}

/// `e` stands for a set of `k` clauses whose merge succeeds.
pub open spec fn combination(clauses: Seq<Literals>, k: nat, e: (nat, Literals)) -> bool {
    exists|indices: Seq<nat>|
        #![trigger merged(clauses, indices)]
        indices.len() == k && ascending(indices, clauses.len()) && merged(clauses, indices) == Some(
            e.1,
        ) && e.0 == next_index(indices)
}

proof fn lemma_extensions_members(
    lits: Literals,
    start: nat,
    clauses: Seq<Literals>,
    hi: nat,
    e: (nat, Literals),
)
    ensures
        extensions(lits, start, clauses, hi).contains(e) <==> exists|j: nat|
            start <= j < hi && compatible(lits, clauses[j as int]) && e == (
                j + 1,
                combine(lits, clauses[j as int]),
            ),
    decreases hi,
{
    if hi > start {
        let prev = extensions(lits, start, clauses, (hi - 1) as nat);
        lemma_extensions_members(lits, start, clauses, (hi - 1) as nat, e);
        let j = (hi - 1) as nat;
        if compatible(lits, clauses[j as int]) {
            let x = (hi, combine(lits, clauses[j as int]));
            assert(prev.push(x).contains(e) <==> (prev.contains(e) || e == x)) by {
                if prev.push(x).contains(e) {
                    let t = choose|t: int| 0 <= t < prev.push(x).len() && prev.push(x)[t] == e;
                    if t < prev.len() {
                        assert(prev[t] == e);
                    }
                }
                if prev.contains(e) {
                    let t = choose|t: int| 0 <= t < prev.len() && prev[t] == e;
                    assert(prev.push(x)[t] == e);
                }
                if e == x {
                    assert(prev.push(x)[prev.len() as int] == e);
                }
            }
        }
    }
}

proof fn lemma_next_generation_members(
    g: Seq<(nat, Literals)>,
    clauses: Seq<Literals>,
    i: nat,
    e: (nat, Literals),
)
    requires
        i <= g.len(),
    ensures
        next_generation(g, clauses, i).contains(e) <==> exists|t: int|
            0 <= t < i && #[trigger] extensions(g[t].1, g[t].0, clauses, clauses.len()).contains(
                e,
            ),
    decreases i,
{
    if i > 0 {
        lemma_next_generation_members(g, clauses, (i - 1) as nat, e);
        let a = next_generation(g, clauses, (i - 1) as nat);
        let b = extensions(g[i - 1].1, g[i - 1].0, clauses, clauses.len());
        assert((a + b).contains(e) <==> (a.contains(e) || b.contains(e))) by {
            if (a + b).contains(e) {
                let t = choose|t: int| 0 <= t < (a + b).len() && (a + b)[t] == e;
                if t < a.len() {
                    assert(a[t] == e);
                } else {
                    assert(b[t - a.len()] == e);
                }
            }
            if a.contains(e) {
                let t = choose|t: int| 0 <= t < a.len() && a[t] == e;
                assert((a + b)[t] == e);
            }
            if b.contains(e) {
                let t = choose|t: int| 0 <= t < b.len() && b[t] == e;
                assert((a + b)[t + a.len()] == e);
            }
        }
        if b.contains(e) {
            assert(extensions(g[(i - 1) as int].1, g[(i - 1) as int].0, clauses, clauses.len()).contains(e));
        }
    }
}

/// Generation `k` holds exactly the sets of `k` clauses whose merge
/// succeeds: an entry is in it if and only if some strictly increasing
/// sequence of `k` clause indices merges, in order, to the entry's
/// literals, and the entry's next index follows the last of them.
pub proof fn lemma_generation_members(clauses: Seq<Literals>, k: nat, e: (nat, Literals))
    ensures
        generation(clauses, k).contains(e) <==> combination(clauses, k, e),
    decreases k,
{
    let n = clauses.len();
    if k == 0 {
        let g = generation(clauses, 0);
        if g.contains(e) {
            assert(g[0] == e);
            let none = Seq::<nat>::empty();
            assert(merged(clauses, none) == Some(e.1));
        }
        if combination(clauses, 0, e) {
            let indices = choose|indices: Seq<nat>|
                #![trigger merged(clauses, indices)]
                indices.len() == 0 && ascending(indices, n) && merged(clauses, indices) == Some(
                    e.1,
                ) && e.0 == next_index(indices);
            assert(g[0] == e);
        }
    } else {
        let g = generation(clauses, (k - 1) as nat);
        lemma_next_generation_members(g, clauses, g.len(), e);
        if generation(clauses, k).contains(e) {
            let t = choose|t: int|
                0 <= t < g.len() && #[trigger] extensions(g[t].1, g[t].0, clauses, n).contains(e);
            let p = g[t];
            lemma_extensions_members(p.1, p.0, clauses, n, e);
            let j = choose|j: nat|
                p.0 <= j < n && compatible(p.1, clauses[j as int]) && e == (
                    j + 1,
                    combine(p.1, clauses[j as int]),
                );
            assert(g.contains(p));
            lemma_generation_members(clauses, (k - 1) as nat, p);
            let pi = choose|indices: Seq<nat>|
                #![trigger merged(clauses, indices)]
                indices.len() == k - 1 && ascending(indices, n) && merged(clauses, indices) == Some(
                    p.1,
                ) && p.0 == next_index(indices);
            let indices = pi.push(j);
            assert(indices.drop_last() =~= pi);
            assert(ascending(indices, n)) by {
                assert forall|a: int, b: int| 0 <= a < b < indices.len() implies indices[a]
                    < indices[b] by {
                    if b == indices.len() - 1 && a < pi.len() {
                        assert(pi[a] <= pi.last());
                    }
                }
            }
            assert(merged(clauses, indices) == Some(e.1));
            assert(combination(clauses, k, e));
        }
        if combination(clauses, k, e) {
            let indices = choose|indices: Seq<nat>|
                #![trigger merged(clauses, indices)]
                indices.len() == k && ascending(indices, n) && merged(clauses, indices) == Some(
                    e.1,
                ) && e.0 == next_index(indices);
            let pi = indices.drop_last();
            let j = indices.last();
            let m = merged(clauses, pi)->Some_0;
            let p = (next_index(pi), m);
            assert(ascending(pi, n));
            assert(combination(clauses, (k - 1) as nat, p));
            lemma_generation_members(clauses, (k - 1) as nat, p);
            let t = choose|t: int| 0 <= t < g.len() && g[t] == p;
            assert(p.0 <= j) by {
                if pi.len() > 0 {
                    assert(pi.last() == indices[pi.len() - 1]);
                }
            }
            lemma_extensions_members(p.1, p.0, clauses, n, e);
            assert(extensions(g[t].1, g[t].0, clauses, n).contains(e));
        }
    }
}

} // verus!
