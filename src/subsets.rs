//! Enumeration of the ascending index sequences of a given size, as the
//! solver's generations visit them.
use vstd::prelude::*;

verus! {

/// `s` is strictly increasing with every index below `count`.
pub open spec fn ascending_below(s: Seq<usize>, count: nat) -> bool {
    &&& forall|i: int, j: int| 0 <= i < j < s.len() ==> s[i] < s[j]
    &&& forall|i: int| 0 <= i < s.len() ==> (s[i] as nat) < count
}

/// `b` to the power `e`.
pub open spec fn power(b: nat, e: nat) -> nat
    decreases e,
{
    if e == 0 {
        1
    } else {
        b * power(b, (e - 1) as nat)
    }
}

/// Work left on a stack of partial sequences: each partial sequence of
/// length `l` stands for at most `(count + 1)^(size - l)` nodes.
pub open spec fn pending(stack: Seq<Vec<usize>>, count: nat, size: nat) -> nat
    decreases stack.len(),
{
    if stack.len() == 0 {
        0
    } else {
        pending(stack.drop_last(), count, size) + power(
            count + 1,
            (size - stack.last()@.len()) as nat,
        )
    }
}

proof fn lemma_power_pos(b: nat, e: nat)
    requires
        b > 0,
    ensures
        power(b, e) > 0,
    decreases e,
{
    if e > 0 {
        lemma_power_pos(b, (e - 1) as nat);
        assert(b * power(b, (e - 1) as nat) > 0) by (nonlinear_arith)
            requires
                b > 0,
                power(b, (e - 1) as nat) > 0,
        ;
    }
}

proof fn lemma_pending_push(stack: Seq<Vec<usize>>, x: Vec<usize>, count: nat, size: nat)
    ensures
        pending(stack.push(x), count, size) == pending(stack, count, size) + power(
            count + 1,
            (size - x@.len()) as nat,
        ),
{
    assert(stack.push(x).drop_last() =~= stack);
}

/// `p` is a prefix of `t`.
pub open spec fn is_prefix(p: Seq<usize>, t: Seq<usize>) -> bool {
    p.len() <= t.len() && p == t.subrange(0, p.len() as int)
}

/// No entry of `stack` is a prefix of another or of an entry of `out`, and
/// `out` holds no sequence twice.
pub open spec fn prefix_free(stack: Seq<Vec<usize>>, out: Seq<Vec<usize>>) -> bool {
    &&& forall|i: int, k: int| 0 <= i < k < out.len() ==> out[i]@ != out[k]@
    &&& forall|j: int, i: int|
        0 <= j < stack.len() && 0 <= i < out.len() ==> !is_prefix(stack[j]@, out[i]@)
    &&& forall|j: int, k: int|
        0 <= j < stack.len() && 0 <= k < stack.len() && j != k ==> !is_prefix(
            stack[j]@,
            stack[k]@,
        )
}

proof fn lemma_child_prefix(set: Seq<usize>, x: usize, s: Seq<usize>)
    ensures
        is_prefix(s, set.push(x)) ==> is_prefix(s, set) || s == set.push(x),
        is_prefix(set.push(x), s) ==> is_prefix(set, s),
{
    let c = set.push(x);
    if is_prefix(s, c) && s.len() <= set.len() {
        assert(s =~= set.subrange(0, s.len() as int)) by {
            assert forall|t: int| 0 <= t < s.len() implies s[t] == set[t] by {
                assert(c.subrange(0, s.len() as int)[t] == c[t]);
            }
        }
    }
    if is_prefix(s, c) && s.len() > set.len() {
        assert(s =~= c);
    }
    if is_prefix(c, s) {
        assert(set =~= s.subrange(0, set.len() as int)) by {
            assert forall|t: int| 0 <= t < set.len() implies set[t] == s[t] by {
                assert(s.subrange(0, c.len() as int)[t] == s[t]);
                assert(c[t] == set[t]);
            }
        }
    }
}

/// The strictly increasing sequences of `size` indices below
/// `clause_count`: every one of them is returned, once, and nothing else.
pub fn gen_subsets(clause_count: usize, size: usize) -> (out: Vec<Vec<usize>>)
    ensures
        forall|i: int|
            0 <= i < out@.len() ==> (#[trigger] out@[i])@.len() == size && ascending_below(
                out@[i]@,
                clause_count as nat,
            ),
        forall|t: Seq<usize>|
            t.len() == size && ascending_below(t, clause_count as nat) ==> exists|i: int|
                0 <= i < out@.len() && (#[trigger] out@[i])@ == t,
        forall|i: int, k: int| 0 <= i < k < out@.len() ==> out@[i]@ != out@[k]@,
{
    let ghost n = clause_count as nat;
    let ghost z = size as nat;
    let mut out: Vec<Vec<usize>> = Vec::new();
    let mut stack: Vec<Vec<usize>> = Vec::new();
    stack.push(Vec::new());
    proof {
        assert forall|t: Seq<usize>| t.len() == size && ascending_below(t, n) implies is_prefix(
            stack@[0]@,
            t,
        ) by {
            assert(t.subrange(0, 0) =~= stack@[0]@);
        }
    }
    while stack.len() > 0
        invariant
            n == clause_count,
            z == size,
            forall|j: int|
                0 <= j < stack@.len() ==> (#[trigger] stack@[j])@.len() <= size && ascending_below(
                    stack@[j]@,
                    n,
                ),
            forall|i: int|
                0 <= i < out@.len() ==> (#[trigger] out@[i])@.len() == size && ascending_below(
                    out@[i]@,
                    n,
                ),
            forall|t: Seq<usize>|
                t.len() == size && ascending_below(t, n) ==> (exists|i: int|
                    0 <= i < out@.len() && (#[trigger] out@[i])@ == t) || (exists|j: int|
                    0 <= j < stack@.len() && is_prefix((#[trigger] stack@[j])@, t)),
            prefix_free(stack@, out@),
        decreases pending(stack@, n, z),
    {
        let ghost before = stack@;
        let set = stack.pop().unwrap();
        assert(before.drop_last() =~= stack@);
        assert(set == before.last());
        if set.len() == size {
            let ghost old_out = out@;
            out.push(set);
            proof {
                assert(is_prefix(set@, set@)) by {
                    assert(set@.subrange(0, set@.len() as int) =~= set@);
                }
                assert(prefix_free(stack@, out@)) by {
                    assert forall|i: int, k: int| 0 <= i < k < out@.len() implies out@[i]@
                        != out@[k]@ by {
                        if k == out@.len() - 1 {
                            assert(out@[i] == old_out[i]);
                            assert(!is_prefix(before[before.len() - 1]@, old_out[i]@));
                        } else {
                            assert(out@[i] == old_out[i] && out@[k] == old_out[k]);
                        }
                    }
                    assert forall|j: int, i: int|
                        0 <= j < stack@.len() && 0 <= i < out@.len() implies !is_prefix(
                            stack@[j]@,
                            out@[i]@,
                        ) by {
                        assert(stack@[j] == before[j]);
                        if i == out@.len() - 1 {
                            assert(!is_prefix(before[j]@, before[before.len() - 1]@));
                        } else {
                            assert(out@[i] == old_out[i]);
                        }
                    }
                    assert forall|j: int, k: int|
                        0 <= j < stack@.len() && 0 <= k < stack@.len() && j != k implies !is_prefix(
                            stack@[j]@,
                            stack@[k]@,
                        ) by {
                        assert(stack@[j] == before[j] && stack@[k] == before[k]);
                    }
                }
                assert(pending(before, n, z) == pending(stack@, n, z) + power(n + 1, 0));
                assert forall|t: Seq<usize>| t.len() == size && ascending_below(t, n) implies (exists|
                    i: int,
                | 0 <= i < out@.len() && (#[trigger] out@[i])@ == t) || (exists|j: int|
                    0 <= j < stack@.len() && is_prefix((#[trigger] stack@[j])@, t)) by {
                    if exists|j: int| 0 <= j < before.len() && is_prefix((#[trigger] before[j])@, t) {
                        let j = choose|j: int| 0 <= j < before.len() && is_prefix((#[trigger] before[j])@, t);
                        if j == before.len() - 1 {
                            assert(set@ =~= t);
                            assert(out@[out@.len() - 1]@ == t);
                        } else {
                            assert(stack@[j] == before[j]);
                        }
                    } else {
                        let i = choose|i: int| 0 <= i < old_out.len() && (#[trigger] old_out[i])@ == t;
                        assert(out@[i] == old_out[i]);
                    }
                }
            }
        } else {
            let lo: usize = if set.len() == 0 {
                0
            } else {
                set[set.len() - 1] + 1
            };
            let ghost d = (z - set@.len()) as nat;
            let ghost w = power(n + 1, (d - 1) as nat);
            let ghost base = stack@;
            assert(power(n + 1, d) == (n + 1) * w);
            let mut new_index: usize = lo;
            while new_index < clause_count
                invariant
                    n == clause_count,
                    z == size,
                    set@.len() < size,
                    ascending_below(set@, n),
                    lo <= new_index,
                    new_index <= clause_count || new_index == lo,
                    set@.len() > 0 ==> lo == set@[set@.len() - 1] + 1,
                    set@.len() == 0 ==> lo == 0,
                    d == z - set@.len(),
                    w == power(n + 1, (d - 1) as nat),
                    stack@.len() >= base.len(),
                    forall|j: int| 0 <= j < base.len() ==> stack@[j] == base[j],
                    forall|j: int|
                        base.len() <= j < stack@.len() ==> (#[trigger] stack@[j])@ == set@.push(
                            (lo + j - base.len()) as usize,
                        ),
                    stack@.len() == base.len() + (new_index - lo),
                    prefix_free(stack@, out@),
                    forall|j: int|
                        0 <= j < base.len() ==> !is_prefix(base[j]@, set@) && !is_prefix(
                            set@,
                            base[j]@,
                        ),
                    forall|i: int| 0 <= i < out@.len() ==> !is_prefix(set@, out@[i]@),
                    forall|j: int|
                        0 <= j < stack@.len() ==> (#[trigger] stack@[j])@.len() <= size
                            && ascending_below(stack@[j]@, n),
                    pending(stack@, n, z) == pending(base, n, z) + (new_index - lo) * w,
                decreases clause_count - new_index,
            {
                let mut new_set = Vec::new();
                let mut k: usize = 0;
                while k < set.len()
                    invariant
                        k <= set@.len(),
                        new_set@ == set@.subrange(0, k as int),
                    decreases set@.len() - k,
                {
                    new_set.push(set[k]);
                    k = k + 1;
                    assert(new_set@ =~= set@.subrange(0, k as int));
                }
                new_set.push(new_index);
                assert(new_set@ =~= set@.push(new_index));
                let ghost old_stack = stack@;
                proof {
                    lemma_pending_push(stack@, new_set, n, z);
                    assert(new_set@.len() == set@.len() + 1);
                    assert((z - new_set@.len()) as nat == (d - 1) as nat);
                    assert((new_index - lo) * w + w == (new_index + 1 - lo) * w) by (nonlinear_arith);
                }
                stack.push(new_set);
                proof {
                    let c = set@.push(new_index);
                    assert(stack@[stack@.len() - 1]@ == c);
                    assert forall|i: int| 0 <= i < out@.len() implies !is_prefix(c, out@[i]@) by {
                        lemma_child_prefix(set@, new_index, out@[i]@);
                    }
                    assert forall|j: int| 0 <= j < old_stack.len() implies !is_prefix(
                        old_stack[j]@,
                        c,
                    ) && !is_prefix(c, old_stack[j]@) by {
                        lemma_child_prefix(set@, new_index, old_stack[j]@);
                        if j >= base.len() {
                            let x = (lo + j - base.len()) as usize;
                            assert(old_stack[j]@ == set@.push(x));
                            if is_prefix(old_stack[j]@, c) {
                                assert(old_stack[j]@ =~= c);
                                assert(old_stack[j]@[set@.len() as int] == x);
                            }
                            if is_prefix(c, old_stack[j]@) {
                                assert(c =~= old_stack[j]@);
                                assert(c[set@.len() as int] == new_index);
                            }
                        } else {
                            assert(old_stack[j] == base[j]);
                        }
                    }
                    assert(prefix_free(stack@, out@)) by {
                        assert forall|j: int, i: int|
                            0 <= j < stack@.len() && 0 <= i < out@.len() implies !is_prefix(
                                stack@[j]@,
                                out@[i]@,
                            ) by {
                            if j < old_stack.len() {
                                assert(stack@[j] == old_stack[j]);
                            }
                        }
                        assert forall|j: int, k: int|
                            0 <= j < stack@.len() && 0 <= k < stack@.len() && j != k implies !is_prefix(
                                stack@[j]@,
                                stack@[k]@,
                            ) by {
                            if j < old_stack.len() {
                                assert(stack@[j] == old_stack[j]);
                            }
                            if k < old_stack.len() {
                                assert(stack@[k] == old_stack[k]);
                            }
                        }
                    }
                }
                new_index = new_index + 1;
            }
            proof {
                let m: int = if lo <= clause_count { clause_count - lo } else { 0 };
                lemma_power_pos(n + 1, (d - 1) as nat);
                assert(stack@.len() == base.len() + m);
                assert(m * w <= n * w) by (nonlinear_arith)
                    requires
                        0 <= m <= n,
                ;
                assert(n * w < (n + 1) * w) by (nonlinear_arith)
                    requires
                        w > 0,
                ;
                assert forall|t: Seq<usize>| t.len() == size && ascending_below(t, n) implies (exists|
                    i: int,
                | 0 <= i < out@.len() && (#[trigger] out@[i])@ == t) || (exists|j: int|
                    0 <= j < stack@.len() && is_prefix((#[trigger] stack@[j])@, t)) by {
                    if exists|j: int| 0 <= j < before.len() && is_prefix((#[trigger] before[j])@, t) {
                        let j = choose|j: int| 0 <= j < before.len() && is_prefix((#[trigger] before[j])@, t);
                        if j == before.len() - 1 {
                            let x = t[set@.len() as int];
                            let jj = base.len() + (x - lo);
                            assert(stack@[jj]@ =~= t.subrange(0, set@.len() + 1 as int));
                        } else {
                            assert(base[j] == before[j]);
                            assert(stack@[j] == before[j]);
                        }
                    }
                }
            }
        }
    }
    out
}

} // verus!
