//! Literals, the literal-map model shared by every clause representation,
//! and the indexable sequence of clauses.
use vstd::prelude::*;

use crate::clauses::Merge;

verus! {

/// Polarity of a literal.
#[derive(Debug, PartialEq, Eq, Clone, Copy, Structural)]
pub enum Sign {
    Positive,
    Negative,
}

impl Sign {
    /// The opposite polarity.
    pub fn not(self) -> (r: Sign)
        ensures
            r != self,
    {
        match self {
            Sign::Positive => Sign::Negative,
            Sign::Negative => Sign::Positive,
        }
    }
}

/// The literals of a clause: each constrained variable with its polarity.
pub type Literals = Map<nat, Sign>;

/// Two clauses can be merged: no variable carries opposite signs in them.
pub open spec fn compatible(a: Literals, b: Literals) -> bool {
    forall|v: nat| a.contains_key(v) && b.contains_key(v) ==> a[v] == b[v]
}

/// The literals of a merged clause.
pub open spec fn combine(a: Literals, b: Literals) -> Literals {
    a.union_prefer_right(b)
}

/// Merging is symmetric: `a` and `b` conflict exactly when `b` and `a` do,
/// and when they do not, both orders give the same literals.
pub proof fn lemma_merge_symmetric(a: Literals, b: Literals)
    ensures
        compatible(a, b) == compatible(b, a),
        compatible(a, b) ==> combine(a, b) == combine(b, a),
{
    if compatible(a, b) {
        assert(combine(a, b) =~= combine(b, a));
    }
}

/// The order in which clauses are merged into `a` does not matter: merging
/// `b` then `c` succeeds exactly when merging `c` then `b` does, and then
/// both give the same literals.
pub proof fn lemma_merge_order(a: Literals, b: Literals, c: Literals)
    ensures
        (compatible(a, b) && compatible(combine(a, b), c)) == (compatible(a, c) && compatible(
            combine(a, c),
            b,
        )),
        compatible(a, b) && compatible(combine(a, b), c) ==> combine(combine(a, b), c) == combine(
            combine(a, c),
            b,
        ),
{
    if compatible(a, b) && compatible(combine(a, b), c) {
        assert(compatible(a, c));
        assert(compatible(combine(a, c), b));
        assert(combine(combine(a, b), c) =~= combine(combine(a, c), b));
    }
    if compatible(a, c) && compatible(combine(a, c), b) {
        assert(compatible(a, b));
        assert(compatible(combine(a, b), c));
    }
}

/// The literal map that a raw list of `(variable, sign)` pairs denotes.
pub open spec fn raw_literals(s: Seq<(u32, Sign)>) -> Literals
    decreases s.len(),
{
    if s.len() == 0 {
        Map::empty()
    } else {
        raw_literals(s.drop_last()).insert(s.last().0 as nat, s.last().1)
    }
}

/// A raw list never gives one variable both signs.
pub open spec fn consistent(s: Seq<(u32, Sign)>) -> bool {
    forall|i: int, j: int|
        0 <= i < s.len() && 0 <= j < s.len() && s[i].0 == s[j].0 ==> s[i].1 == s[j].1
}

/// Every variable of a raw list is below `num_vars`.
pub open spec fn vars_below(s: Seq<(u32, Sign)>, num_vars: nat) -> bool {
    forall|i: int| 0 <= i < s.len() ==> (s[i].0 as nat) < num_vars
}

/// What a consistent raw list denotes: exactly its variables, each with
/// the sign that the list gives it.
pub proof fn lemma_raw_literals(s: Seq<(u32, Sign)>)
    requires
        consistent(s),
    ensures
        raw_literals(s).dom().finite(),
        forall|v: nat|
            raw_literals(s).contains_key(v) <==> exists|i: int|
                0 <= i < s.len() && s[i].0 as nat == v,
        forall|i: int|
            0 <= i < s.len() ==> #[trigger] raw_literals(s)[s[i].0 as nat] == s[i].1,
    decreases s.len(),
{
    if s.len() > 0 {
        let t = s.drop_last();
        assert(consistent(t));
        lemma_raw_literals(t);
        assert forall|v: nat|
            raw_literals(s).contains_key(v) implies exists|i: int|
                0 <= i < s.len() && s[i].0 as nat == v by {
            if v != s.last().0 as nat {
                let i = choose|i: int| 0 <= i < t.len() && t[i].0 as nat == v;
                assert(s[i].0 as nat == v);
            } else {
                assert(s[s.len() - 1].0 as nat == v);
            }
        }
        assert forall|v: nat|
            (exists|i: int| 0 <= i < s.len() && s[i].0 as nat == v) implies raw_literals(
                s,
            ).contains_key(v) by {
            let i = choose|i: int| 0 <= i < s.len() && s[i].0 as nat == v;
            if i < s.len() - 1 {
                assert(t[i].0 as nat == v);
            }
        }
        assert forall|i: int| 0 <= i < s.len() implies #[trigger] raw_literals(s)[s[i].0 as nat]
            == s[i].1 by {
            if i < s.len() - 1 {
                assert(t[i] == s[i]);
                assert(consistent(s));
                assert(s[i].0 == s[s.len() - 1].0 ==> s[i].1 == s[s.len() - 1].1);
            }
        }
    }
}

/// Appending a pair to a raw list inserts it into the literals.
pub proof fn lemma_push(s: Seq<(u32, Sign)>, x: (u32, Sign))
    ensures
        raw_literals(s.push(x)) == raw_literals(s).insert(x.0 as nat, x.1),
{
    assert(s.push(x).drop_last() =~= s);
}

/// Extending a prefix of a raw list by one pair inserts that pair.
pub proof fn lemma_prefix(s: Seq<(u32, Sign)>, k: int)
    requires
        0 <= k < s.len(),
    ensures
        raw_literals(s.subrange(0, k + 1)) == raw_literals(s.subrange(0, k)).insert(
            s[k].0 as nat,
            s[k].1,
        ),
{
    assert(s.subrange(0, k + 1) =~= s.subrange(0, k).push(s[k]));
    lemma_push(s.subrange(0, k), s[k]);
}

/// An index-addressable, immutable sequence of clauses in input order.
pub struct DNF<T>(Vec<T>);

impl<T> View for DNF<T> {
    type V = Seq<T>;

    closed spec fn view(&self) -> Seq<T> {
        self.0@
    }
}

impl<T: Merge> DNF<T> {
    /// Every clause is well formed.
    pub open spec fn wf(&self) -> bool {
        forall|i: int| 0 <= i < self@.len() ==> #[trigger] self@[i].wf()
    }
}

impl<T> DNF<T> {
    /// Wraps clauses, keeping their order.
    pub fn from(value: Vec<T>) -> (r: DNF<T>)
        ensures
            r@ == value@,
    {
        DNF(value)
    }

    /// The clause at `index`.
    pub fn index(&self, index: usize) -> (r: &T)
        requires
            index < self@.len(),
        ensures
            *r == self@[index as int],
    {
        &self.0[index]
    }

    /// Number of clauses.
    pub fn len(&self) -> (r: usize)
        ensures
            r == self@.len(),
    {
        self.0.len()
    }
}

} // verus!
