//! An exact signed big integer: little-endian 64-bit words and a sign.
use vstd::arithmetic::power2::{lemma2_to64, lemma_pow2_adds, lemma_pow2_pos, pow2};
use vstd::bits::lemma_u64_shl_is_mul;
use vstd::prelude::*;

use crate::counters::Counter;

verus! {

/// The number that little-endian words denote, word 0 least significant.
pub open spec fn magnitude(s: Seq<u64>) -> nat
    decreases s.len(),
{
    if s.len() == 0 {
        0
    } else {
        (s[0] + pow2(64) * magnitude(s.subrange(1, s.len() as int))) as nat
    }
}

/// Every bit of every word inverted.
pub open spec fn complement(s: Seq<u64>) -> Seq<u64> {
    s.map_values(|x: u64| (0xFFFF_FFFF_FFFF_FFFFu64 - x) as u64)
}

proof fn lemma_word_pow(i: nat)
    ensures
        pow2(64) * pow2(64 * i) == pow2(64 * (i + 1)),
        pow2(64 * i) > 0,
{
    lemma_pow2_adds(64, 64 * i);
    assert(64 + 64 * i == 64 * (i + 1)) by (nonlinear_arith);
    lemma_pow2_pos(64 * i);
}

/// Splitting the words at `i` splits the number.
pub proof fn lemma_split(s: Seq<u64>, i: int)
    requires
        0 <= i <= s.len(),
    ensures
        magnitude(s) == magnitude(s.subrange(0, i)) + pow2(64 * i as nat) * magnitude(
            s.subrange(i, s.len() as int),
        ),
    decreases i,
{
    if i == 0 {
        assert(magnitude(s.subrange(0, 0)) == 0);
        assert(s.subrange(0, s.len() as int) =~= s);
        assert(pow2(0) == 1) by {
            lemma2_to64();
        }
        assert(64 * i as nat == 0);
        let m = magnitude(s) as int;
        assert(1 * m == m);
    } else {
        let t = s.subrange(1, s.len() as int);
        lemma_split(t, i - 1);
        let lo = s.subrange(0, i);
        assert(t.subrange(0, i - 1) =~= lo.subrange(1, i));
        assert(t.subrange(i - 1, t.len() as int) =~= s.subrange(i, s.len() as int));
        lemma_word_pow((i - 1) as nat);
        let w = pow2(64) as int;
        let p = pow2(64 * (i - 1) as nat) as int;
        let a = magnitude(t.subrange(0, i - 1)) as int;
        let b = magnitude(s.subrange(i, s.len() as int)) as int;
        assert(magnitude(s) == s[0] + w * magnitude(t));
        assert(magnitude(t) == a + p * b);
        assert(lo[0] == s[0]);
        assert(magnitude(lo) == lo[0] + w * magnitude(lo.subrange(1, lo.len() as int)));
        assert(magnitude(lo) == s[0] + w * a);
        assert(64 * (i - 1) as nat + 64 == 64 * i as nat);
        assert(w * p == pow2(64 * i as nat));
        assert(magnitude(s) == magnitude(lo) + (w * p) * b) by (nonlinear_arith)
            requires
                magnitude(s) == s[0] + w * magnitude(t),
                magnitude(t) == a + p * b,
                magnitude(lo) == s[0] + w * a,
        ;
    }
}

/// A number of `n` words is below `2^(64 n)`.
pub proof fn lemma_bound(s: Seq<u64>)
    ensures
        magnitude(s) < pow2(64 * s.len()),
    decreases s.len(),
{
    if s.len() == 0 {
        assert(pow2(0) == 1) by {
            lemma2_to64();
        }
    } else {
        let t = s.subrange(1, s.len() as int);
        lemma_bound(t);
        lemma_word_pow(t.len());
        lemma2_to64();
        let w = pow2(64) as int;
        let m = magnitude(t) as int;
        let p = pow2(64 * t.len()) as int;
        assert(w * m <= w * (p - 1)) by (nonlinear_arith)
            requires
                m <= p - 1,
                w > 0,
        ;
        assert(t.len() + 1 == s.len());
    }
}

/// The number is zero exactly when every word is.
pub proof fn lemma_zero(s: Seq<u64>)
    ensures
        magnitude(s) == 0 <==> forall|i: int| 0 <= i < s.len() ==> s[i] == 0,
    decreases s.len(),
{
    if s.len() > 0 {
        let t = s.subrange(1, s.len() as int);
        lemma_zero(t);
        lemma2_to64();
        if magnitude(s) == 0 {
            assert(pow2(64) * magnitude(t) == 0);
            assert(magnitude(t) == 0) by (nonlinear_arith)
                requires
                    pow2(64) * magnitude(t) == 0,
                    pow2(64) > 0,
            ;
            assert forall|i: int| 0 <= i < s.len() implies s[i] == 0 by {
                if i > 0 {
                    assert(t[i - 1] == s[i]);
                }
            }
        }
        if forall|i: int| 0 <= i < s.len() ==> s[i] == 0 {
            assert forall|i: int| 0 <= i < t.len() implies t[i] == 0 by {
                assert(t[i] == s[i + 1]);
            }
        }
    }
}

/// Replacing word `i` by `x` changes the number by `(x - s[i]) 2^(64 i)`.
pub proof fn lemma_update(s: Seq<u64>, i: int, x: u64)
    requires
        0 <= i < s.len(),
    ensures
        magnitude(s.update(i, x)) + s[i] * pow2(64 * i as nat) == magnitude(s) + x * pow2(
            64 * i as nat,
        ),
{
    let u = s.update(i, x);
    lemma_split(s, i);
    lemma_split(u, i);
    assert(u.subrange(0, i) =~= s.subrange(0, i));
    let hs = s.subrange(i, s.len() as int);
    let hu = u.subrange(i, u.len() as int);
    assert(hs.subrange(1, hs.len() as int) =~= hu.subrange(1, hu.len() as int));
    let p = pow2(64 * i as nat) as int;
    let r = pow2(64) * magnitude(hs.subrange(1, hs.len() as int));
    assert(p * (x + r) + s[i] * p == p * (s[i] + r) + x * p) by (nonlinear_arith);
}

/// Appending a word `x` adds `x 2^(64 n)`.
pub proof fn lemma_push(s: Seq<u64>, x: u64)
    ensures
        magnitude(s.push(x)) == magnitude(s) + x * pow2(64 * s.len()),
{
    let u = s.push(x);
    lemma_split(u, s.len() as int);
    assert(u.subrange(0, s.len() as int) =~= s);
    let h = u.subrange(s.len() as int, u.len() as int);
    assert(h[0] == x);
    let z = magnitude(h.subrange(1, h.len() as int));
    assert(z == 0);
    assert(magnitude(h) == h[0] + pow2(64) * z);
    assert(magnitude(h) == x) by (nonlinear_arith)
        requires
            magnitude(h) == h[0] + pow2(64) * z,
            z == 0,
            h[0] == x,
    ;
    assert(64 * (s.len() as int) as nat == 64 * s.len());
    let p = pow2(64 * s.len());
    let m = magnitude(h);
    assert(p * m == x * p) by (nonlinear_arith)
        requires
            m == x,
    ;
}

/// Inverting every bit of `n` words turns `m` into `2^(64 n) - 1 - m`.
pub proof fn lemma_complement(s: Seq<u64>)
    ensures
        magnitude(complement(s)) + magnitude(s) + 1 == pow2(64 * s.len()),
    decreases s.len(),
{
    let c = complement(s);
    if s.len() == 0 {
        assert(pow2(0) == 1) by {
            lemma2_to64();
        }
    } else {
        let t = s.subrange(1, s.len() as int);
        lemma_complement(t);
        assert(c.subrange(1, c.len() as int) =~= complement(t));
        lemma_word_pow(t.len());
        lemma2_to64();
        let w = pow2(64) as int;
        let a = magnitude(complement(t)) as int;
        let b = magnitude(t) as int;
        assert(w * a + w * b + w == w * (a + b + 1)) by (nonlinear_arith);
        assert(t.len() + 1 == s.len());
    }
}

/// The words needed to hold bit `64 block + 63` of a number of `n` words.
pub open spec fn reach(n: nat, block: nat) -> nat {
    if block < n {
        n
    } else {
        block + 1
    }
}

/// After an update at word `block` of a number of `n` words, `w` has just
/// the words that reach, or one more where a carry passed the end, which
/// only a number of at least `2^(64 reach)` needs.
pub open spec fn grew_only_by_carry(n: nat, block: nat, w: Seq<u64>) -> bool {
    ||| w.len() == reach(n, block)
    ||| (w.len() == reach(n, block) + 1 && magnitude(w) >= pow2(64 * reach(n, block)))
}

#[derive(Clone, Copy, Debug, PartialEq, Eq, Structural)]
enum Sign {
    Positive,
    Negative,
}

impl Sign {
    fn not(self) -> (r: Sign)
        ensures
            r != self,
    {
        match self {
            Sign::Positive => Sign::Negative,
            Sign::Negative => Sign::Positive,
        }
    }
}

/// An exact signed integer: little-endian 64-bit words and a sign flag.
#[derive(Debug)]
pub struct BigCounter {
    buffer: Vec<u64>,
    sign: Sign,
}

proof fn lemma_power(block: nat, inner: nat)
    requires
        inner < 64,
    ensures
        pow2(64 * block + inner) == pow2(64 * block) * pow2(inner),
        pow2(inner) < pow2(64),
        pow2(64 * block) * pow2(64) == pow2(64 * (block + 1)),
        pow2(64 * block) > 0,
        pow2(inner) > 0,
        pow2(64) == 0x1_0000_0000_0000_0000,
{
    lemma_pow2_adds(64 * block, inner);
    lemma_word_pow(block);
    lemma_pow2_pos(inner);
    lemma2_to64();
    vstd::arithmetic::power2::lemma_pow2_strictly_increases(inner, 64);
}

impl BigCounter {
    /// The words, least significant first.
    pub closed spec fn words(&self) -> Seq<u64> {
        self.buffer@
    }

    /// Whether the sign flag is negative.
    pub closed spec fn negative(&self) -> bool {
        self.sign == Sign::Negative
    }

    /// Inverts every bit of the words below `upto`.
    fn invert_words(&mut self, upto: usize)
        requires
            upto <= old(self).buffer@.len(),
        ensures
            final(self).sign == old(self).sign,
            final(self).buffer@ == complement(old(self).buffer@.subrange(0, upto as int))
                + old(self).buffer@.subrange(upto as int, old(self).buffer@.len() as int),
    {
        let ghost snap = self.buffer@;
        let mut i: usize = 0;
        while i < upto
            invariant
                i <= upto <= snap.len(),
                self.buffer@.len() == snap.len(),
                self.sign == old(self).sign,
                snap == old(self).buffer@,
                forall|t: int| 0 <= t < i ==> self.buffer@[t] == 0xFFFF_FFFF_FFFF_FFFFu64 - snap[t],
                forall|t: int| i <= t < snap.len() ==> self.buffer@[t] == snap[t],
            decreases upto - i,
        {
            let x = self.buffer[i];
            assert(x ^ 0xFFFF_FFFF_FFFF_FFFFu64 == 0xFFFF_FFFF_FFFF_FFFFu64 - x) by (bit_vector);
            self.buffer[i] = x ^ 0xFFFF_FFFF_FFFF_FFFF;
            i = i + 1;
        }
        assert(self.buffer@ =~= complement(snap.subrange(0, upto as int)) + snap.subrange(
            upto as int,
            snap.len() as int,
        ));
    }

    /// Adds `2^(64 block_index + inner_index)` to the magnitude, carrying
    /// into higher words and growing the buffer when needed.
    fn cascade_up(&mut self, block_index: usize, inner_index: usize)
        requires
            inner_index < 64,
        ensures
            final(self).sign == old(self).sign,
            final(self).buffer@.len() > 0,
            grew_only_by_carry(old(self).buffer@.len(), block_index as nat, final(self).buffer@),
            magnitude(final(self).buffer@) == magnitude(old(self).buffer@) + pow2(
                (64 * block_index + inner_index) as nat,
            ),
    {
        let ghost m0 = magnitude(self.buffer@);
        let ghost p = pow2(64 * block_index as nat);
        proof {
            lemma_power(block_index as nat, inner_index as nat);
            lemma_u64_shl_is_mul(1, inner_index as u64);
        }
        let add: u64 = 1u64 << (inner_index as u64);
        assert(add == pow2(inner_index as nat));
        if block_index >= self.buffer.len() {
            let ghost n0 = self.buffer@.len();
            while self.buffer.len() <= block_index
                invariant
                    magnitude(self.buffer@) == m0,
                    self.sign == old(self).sign,
                    n0 <= block_index,
                    n0 <= self.buffer@.len() <= block_index + 1,
                    forall|t: int| n0 <= t < self.buffer@.len() ==> self.buffer@[t] == 0,
                decreases block_index + 1 - self.buffer@.len(),
            {
                proof {
                    lemma_push(self.buffer@, 0);
                }
                self.buffer.push(0);
            }
            proof {
                lemma_update(self.buffer@, block_index as int, add);
            }
            self.buffer[block_index] = add;
            assert(add * p == p * pow2(inner_index as nat)) by (nonlinear_arith)
                requires
                    add == pow2(inner_index as nat),
            ;
        } else {
            let len_now: usize = self.buffer.len();
            let ghost n = self.buffer@.len();
            let mut index: usize = block_index;
            let cur = self.buffer[index];
            let mut carry = cur > u64::MAX - add;
            let next = if carry {
                cur - (u64::MAX - add) - 1
            } else {
                cur + add
            };
            proof {
                lemma_update(self.buffer@, index as int, next);
                let pi = pow2(64 * index as nat);
                assert(add * pi == pow2((64 * block_index + inner_index) as nat)) by (
                nonlinear_arith)
                    requires
                        add == pow2(inner_index as nat),
                        pi == p,
                        pow2((64 * block_index + inner_index) as nat) == p * pow2(
                            inner_index as nat,
                        ),
                ;
                assert(pow2(64) * pi == pow2(64 * (index + 1) as nat));
                if carry {
                    assert(next == cur + add - pow2(64));
                    assert(next * pi == cur * pi + add * pi - pow2(64) * pi) by (nonlinear_arith)
                        requires
                            next == cur + add - pow2(64),
                    ;
                } else {
                    assert(next * pi == cur * pi + add * pi) by (nonlinear_arith)
                        requires
                            next == cur + add,
                    ;
                }
            }
            self.buffer[index] = next;
            while carry && index < len_now - 1
                invariant
                    self.sign == old(self).sign,
                    self.buffer@.len() == n,
                    index < n,
                    n > 0,
                    n == len_now,
                    magnitude(self.buffer@) + (if carry {
                        pow2(64 * (index + 1) as nat)
                    } else {
                        0
                    }) == m0 + pow2((64 * block_index + inner_index) as nat),
                decreases n - index,
            {
                index = index + 1;
                let cur = self.buffer[index];
                carry = cur == u64::MAX;
                let next = if carry {
                    0
                } else {
                    cur + 1
                };
                proof {
                    lemma_update(self.buffer@, index as int, next);
                    lemma_power(index as nat, 0);
                    lemma_word_pow(index as nat);
                    let pi = pow2(64 * index as nat);
                    assert(pow2(64) * pi == pow2(64 * (index + 1) as nat));
                    assert(pow2(64 * (index - 1 + 1) as nat) == pi);
                    if carry {
                        assert(next * pi == cur * pi + pi - pow2(64) * pi) by (nonlinear_arith)
                            requires
                                next == cur + 1 - pow2(64),
                        ;
                    } else {
                        assert(next * pi == cur * pi + pi) by (nonlinear_arith)
                            requires
                                next == cur + 1,
                        ;
                    }
                }
                self.buffer[index] = next;
            }
            if carry {
                // the carry passes the most significant word
                proof {
                    lemma_push(self.buffer@, 1);
                    assert(index + 1 == n);
                    assert(1 * pow2(64 * n) == pow2(64 * n));
                }
                self.buffer.push(1);
            }
        }
    }

    /// Subtracts `2^(64 block_index + inner_index)` from the magnitude,
    /// borrowing from higher words; when the borrow passes the most
    /// significant word the magnitude is negated in two's complement and
    /// the sign flips.
    fn cascade_down(&mut self, block_index: usize, inner_index: usize)
        requires
            inner_index < 64,
        ensures
            final(self).buffer@.len() > 0,
            grew_only_by_carry(old(self).buffer@.len(), block_index as nat, final(self).buffer@),
            ({
                let m = magnitude(old(self).buffer@) as int;
                let q = pow2((64 * block_index + inner_index) as nat) as int;
                if m >= q {
                    magnitude(final(self).buffer@) == m - q && final(self).sign == old(self).sign
                } else {
                    magnitude(final(self).buffer@) == q - m && final(self).sign != old(self).sign
                }
            }),
    {
        let ghost m0 = magnitude(self.buffer@) as int;
        let ghost q = pow2((64 * block_index + inner_index) as nat) as int;
        let ghost p = pow2(64 * block_index as nat) as int;
        proof {
            lemma_power(block_index as nat, inner_index as nat);
            lemma_u64_shl_is_mul(1, inner_index as u64);
        }
        let add: u64 = 1u64 << (inner_index as u64);
        assert(add == pow2(inner_index as nat));
        if block_index >= self.buffer.len() {
            let ghost n0 = self.buffer@.len();
            proof {
                lemma_bound(self.buffer@);
                if n0 < block_index {
                    vstd::arithmetic::power2::lemma_pow2_strictly_increases(
                        64 * n0,
                        64 * block_index as nat,
                    );
                }
            }
            while self.buffer.len() <= block_index
                invariant
                    magnitude(self.buffer@) == m0,
                    self.sign == old(self).sign,
                    n0 <= block_index,
                    n0 <= self.buffer@.len() <= block_index + 1,
                    forall|t: int| n0 <= t < self.buffer@.len() ==> self.buffer@[t] == 0,
                decreases block_index + 1 - self.buffer@.len(),
            {
                proof {
                    lemma_push(self.buffer@, 0);
                }
                self.buffer.push(0);
            }
            proof {
                lemma_update(self.buffer@, block_index as int, (add - 1) as u64);
            }
            self.buffer[block_index] = add - 1;
            let ghost snap = self.buffer@;
            self.invert_words(block_index);
            proof {
                let lo = snap.subrange(0, block_index as int);
                let hi = snap.subrange(block_index as int, snap.len() as int);
                lemma_split(snap, block_index as int);
                lemma_split(self.buffer@, block_index as int);
                assert(self.buffer@.subrange(0, block_index as int) =~= complement(lo));
                assert(self.buffer@.subrange(block_index as int, self.buffer@.len() as int)
                    =~= hi);
                lemma_complement(lo);
                assert(magnitude(snap) == m0 + (add - 1) * p);
                assert(p * magnitude(hi) + magnitude(lo) == m0 + (add - 1) * p);
                assert(magnitude(hi) == magnitude(lo) * 0 + magnitude(hi));
                lemma_bound(lo);
                assert(magnitude(lo) == m0 && magnitude(hi) == add - 1) by (nonlinear_arith)
                    requires
                        p * magnitude(hi) + magnitude(lo) == m0 + (add - 1) * p,
                        0 <= magnitude(lo) < p,
                        0 <= m0 < p,
                ;
                assert(magnitude(self.buffer@) == q - m0 - 1) by (nonlinear_arith)
                    requires
                        magnitude(self.buffer@) == magnitude(complement(lo)) + p * magnitude(
                            hi,
                        ),
                        magnitude(complement(lo)) + magnitude(lo) + 1 == p,
                        magnitude(lo) == m0,
                        magnitude(hi) == add - 1,
                        q == p * add,
                ;
            }
            self.cascade_up(0, 0);
            assert(pow2(0) == 1) by {
                lemma2_to64();
            }
            self.sign = self.sign.not();
        } else {
            let ghost n = self.buffer@.len();
            let mut index: usize = block_index;
            let cur = self.buffer[index];
            let mut borrow = cur < add;
            let next = if borrow {
                (u64::MAX - add) + cur + 1
            } else {
                cur - add
            };
            proof {
                lemma_update(self.buffer@, index as int, next);
                let pi = pow2(64 * index as nat);
                assert(add * pi == q) by (nonlinear_arith)
                    requires
                        add == pow2(inner_index as nat),
                        pi == p,
                        q == p * pow2(inner_index as nat),
                ;
                assert(pow2(64) * pi == pow2(64 * (index + 1) as nat));
                if borrow {
                    assert(next * pi == cur * pi - add * pi + pow2(64) * pi) by (nonlinear_arith)
                        requires
                            next == cur - add + pow2(64),
                    ;
                } else {
                    assert(next * pi == cur * pi - add * pi) by (nonlinear_arith)
                        requires
                            next == cur - add,
                    ;
                }
            }
            self.buffer[index] = next;
            while borrow && index < self.buffer.len() - 1
                invariant
                    self.sign == old(self).sign,
                    self.buffer@.len() == n,
                    index < n,
                    magnitude(self.buffer@) - (if borrow {
                        pow2(64 * (index + 1) as nat)
                    } else {
                        0
                    }) == m0 - q,
                decreases n - index,
            {
                index = index + 1;
                let cur = self.buffer[index];
                borrow = cur == 0;
                let next = if borrow {
                    u64::MAX
                } else {
                    cur - 1
                };
                proof {
                    lemma_update(self.buffer@, index as int, next);
                    lemma_power(index as nat, 0);
                    lemma_word_pow(index as nat);
                    let pi = pow2(64 * index as nat);
                    assert(pow2(64) * pi == pow2(64 * (index + 1) as nat));
                    assert(pow2(64 * (index - 1 + 1) as nat) == pi);
                    if borrow {
                        assert(next * pi == cur * pi - pi + pow2(64) * pi) by (nonlinear_arith)
                            requires
                                next == cur - 1 + pow2(64),
                        ;
                    } else {
                        assert(next * pi == cur * pi - pi) by (nonlinear_arith)
                            requires
                                next == cur - 1,
                        ;
                    }
                }
                self.buffer[index] = next;
            }
            if borrow {
                let ghost snap = self.buffer@;
                proof {
                    lemma_bound(snap);
                    assert(index + 1 == n);
                }
                self.invert_words(self.buffer.len());
                proof {
                    assert(snap.subrange(0, n as int) =~= snap);
                    assert(self.buffer@ =~= complement(snap));
                    lemma_complement(snap);
                }
                self.cascade_up(0, 0);
                assert(pow2(0) == 1) by {
                    lemma2_to64();
                }
                self.sign = self.sign.not();
            }
        }
    }
}

/// Word `b` holds `2^inner` and every other word is zero exactly when the
/// number is `2^(64 b + inner)`.
pub proof fn lemma_is_power(s: Seq<u64>, b: int, inner: nat)
    requires
        0 <= b < s.len(),
        inner < 64,
    ensures
        magnitude(s) == pow2((64 * b + inner) as nat) <==> (s[b] == pow2(inner) && forall|i: int|
            0 <= i < s.len() && i != b ==> s[i] == 0),
{
    let lo = s.subrange(0, b);
    let hi = s.subrange(b, s.len() as int);
    let h1 = s.subrange(b + 1, s.len() as int);
    lemma_split(s, b);
    assert(hi.subrange(1, hi.len() as int) =~= h1);
    assert(hi[0] == s[b]);
    lemma_bound(lo);
    assert(lo.len() == b);
    lemma_zero(lo);
    lemma_zero(h1);
    lemma_power(b as nat, inner);
    let p = pow2(64 * b as nat) as int;
    let w = pow2(64) as int;
    let e = pow2(inner) as int;
    let ml = magnitude(lo) as int;
    let mh = magnitude(hi) as int;
    let m1 = magnitude(h1) as int;
    assert(mh == s[b] + w * m1);
    assert(magnitude(s) == ml + p * mh);
    if magnitude(s) == pow2((64 * b + inner) as nat) {
        assert(ml == 0 && mh == e) by (nonlinear_arith)
            requires
                ml + p * mh == p * e,
                0 <= ml < p,
                mh >= 0,
        ;
        assert(m1 == 0 && s[b] == e) by (nonlinear_arith)
            requires
                s[b] + w * m1 == e,
                0 <= s[b],
                0 <= m1,
                0 < e < w,
        ;
        assert forall|i: int| 0 <= i < s.len() && i != b implies s[i] == 0 by {
            if i < b {
                assert(lo[i] == s[i]);
            } else {
                assert(h1[i - b - 1] == s[i]);
            }
        }
    }
    if s[b] == pow2(inner) && forall|i: int| 0 <= i < s.len() && i != b ==> s[i] == 0 {
        assert forall|i: int| 0 <= i < lo.len() implies lo[i] == 0 by {
            assert(lo[i] == s[i]);
        }
        assert forall|i: int| 0 <= i < h1.len() implies h1[i] == 0 by {
            assert(h1[i] == s[i + b + 1]);
        }
        assert(magnitude(s) == p * e) by (nonlinear_arith)
            requires
                magnitude(s) == ml + p * mh,
                mh == s[b] + w * m1,
                ml == 0,
                m1 == 0,
                s[b] == e,
        ;
    }
}

/// The number is below `2^(64 b + inner)` exactly when word `b` is below
/// `2^inner` and every higher word is zero.
pub proof fn lemma_below_power(s: Seq<u64>, b: int, inner: nat)
    requires
        0 <= b < s.len(),
        inner < 64,
    ensures
        magnitude(s) < pow2((64 * b + inner) as nat) <==> (s[b] < pow2(inner) && forall|i: int|
            b < i < s.len() ==> s[i] == 0),
{
    let lo = s.subrange(0, b);
    let hi = s.subrange(b, s.len() as int);
    let h1 = s.subrange(b + 1, s.len() as int);
    lemma_split(s, b);
    assert(hi.subrange(1, hi.len() as int) =~= h1);
    assert(hi[0] == s[b]);
    lemma_bound(lo);
    assert(lo.len() == b);
    lemma_zero(h1);
    lemma_power(b as nat, inner);
    let p = pow2(64 * b as nat) as int;
    let w = pow2(64) as int;
    let e = pow2(inner) as int;
    let ml = magnitude(lo) as int;
    let mh = magnitude(hi) as int;
    let m1 = magnitude(h1) as int;
    assert(mh == s[b] + w * m1);
    assert(magnitude(s) == ml + p * mh);
    if magnitude(s) < pow2((64 * b + inner) as nat) {
        assert(m1 == 0 && s[b] < e) by (nonlinear_arith)
            requires
                ml + p * (s[b] + w * m1) < p * e,
                0 <= ml,
                0 < p,
                0 <= s[b],
                0 <= m1,
                0 < e < w,
        ;
        assert forall|i: int| b < i < s.len() implies s[i] == 0 by {
            assert(h1[i - b - 1] == s[i]);
        }
    }
    if s[b] < pow2(inner) && forall|i: int| b < i < s.len() ==> s[i] == 0 {
        assert forall|i: int| 0 <= i < h1.len() implies h1[i] == 0 by {
            assert(h1[i] == s[i + b + 1]);
        }
        assert(magnitude(s) < p * e) by (nonlinear_arith)
            requires
                magnitude(s) == ml + p * mh,
                mh == s[b] + w * m1,
                0 <= ml < p,
                m1 == 0,
                s[b] < e,
        ;
    }
}

impl BigCounter {
    /// Splits a bit position into its word and the bit inside the word.
    fn get_block_and_inner(power_of_two: usize) -> (r: (usize, usize))
        ensures
            r.1 < 64,
            64 * r.0 + r.1 == power_of_two,
    {
        (power_of_two / 64, power_of_two % 64)
    }

    /// Whether the sign flag is negative. A negative flag may stand over a
    /// zero magnitude.
    pub fn is_negative(&self) -> (r: bool)
        ensures
            r == self.negative(),
    {
        self.sign == Sign::Negative
    }

    /// A copy of the words, least significant first.
    pub fn to_words(&self) -> (r: Vec<u64>)
        ensures
            r@ == self.words(),
    {
        let mut out: Vec<u64> = Vec::new();
        let mut i: usize = 0;
        while i < self.buffer.len()
            invariant
                i <= self.buffer@.len(),
                out@ == self.buffer@.subrange(0, i as int),
            decreases self.buffer@.len() - i,
        {
            out.push(self.buffer[i]);
            i = i + 1;
            assert(out@ =~= self.buffer@.subrange(0, i as int));
        }
        assert(out@ =~= self.buffer@);
        out
    }
}

impl Counter for BigCounter {
    closed spec fn wf(&self) -> bool {
        self.buffer@.len() > 0
    }

    closed spec fn value(&self) -> int {
        if self.sign == Sign::Negative {
            -magnitude(self.buffer@)
        } else {
            magnitude(self.buffer@) as int
        }
    }

    /// Starts as one zero word under a positive sign.
    fn new(max_bit_hint: u32) -> (r: BigCounter)
        ensures
            !r.negative(),
            r.words() == seq![0u64],
    {
        let mut out: Vec<u64> = Vec::new();
        out.push(0);
        out.reserve(max_bit_hint as usize / 64);
        let r = BigCounter { buffer: out, sign: Sign::Positive };
        proof {
            lemma_zero(r.buffer@);
        }
        assert(r.words() =~= seq![0u64]);
        r
    }

    fn equal(&self, power_of_two: u32) -> (r: bool) {
        proof {
            lemma_pow2_pos(power_of_two as nat);
        }
        if self.sign == Sign::Negative {
            return false;
        }
        let (block_index, inner_index) = Self::get_block_and_inner(power_of_two as usize);
        if block_index >= self.buffer.len() {
            proof {
                lemma_bound(self.buffer@);
                if 64 * self.buffer@.len() < power_of_two {
                    vstd::arithmetic::power2::lemma_pow2_strictly_increases(
                        64 * self.buffer@.len(),
                        power_of_two as nat,
                    );
                }
            }
            return false;
        }
        proof {
            assert((64 * (block_index as int) + inner_index as nat) as nat == power_of_two as nat);
            lemma_is_power(self.buffer@, block_index as int, inner_index as nat);
            lemma_power(0, inner_index as nat);
            lemma_u64_shl_is_mul(1, inner_index as u64);
        }
        if self.buffer[block_index] != (1u64 << (inner_index as u64)) {
            return false;
        }
        let mut i: usize = 0;
        while i < self.buffer.len()
            invariant
                i <= self.buffer@.len(),
                forall|t: int| 0 <= t < i && t != block_index ==> self.buffer@[t] == 0,
                self.sign == Sign::Positive,
                block_index < self.buffer@.len(),
                inner_index < 64,
                (64 * (block_index as int) + inner_index as nat) as nat == power_of_two as nat,
                self.buffer@[block_index as int] == pow2(inner_index as nat),
            decreases self.buffer@.len() - i,
        {
            if i != block_index && self.buffer[i] != 0 {
                proof {
                    lemma_is_power(self.buffer@, block_index as int, inner_index as nat);
                }
                return false;
            }
            i = i + 1;
        }
        true
    }

    fn less_than(&self, power_of_two: u32) -> (r: bool) {
        proof {
            lemma_pow2_pos(power_of_two as nat);
        }
        if self.sign == Sign::Negative {
            return true;
        }
        let (block_index, inner_index) = Self::get_block_and_inner(power_of_two as usize);
        if block_index >= self.buffer.len() {
            proof {
                lemma_bound(self.buffer@);
                if 64 * self.buffer@.len() < power_of_two {
                    vstd::arithmetic::power2::lemma_pow2_strictly_increases(
                        64 * self.buffer@.len(),
                        power_of_two as nat,
                    );
                }
            }
            return true;
        }
        proof {
            assert((64 * (block_index as int) + inner_index as nat) as nat == power_of_two as nat);
            lemma_below_power(self.buffer@, block_index as int, inner_index as nat);
            let x = self.buffer@[block_index as int];
            vstd::bits::lemma_u64_shr_is_div(x, inner_index as u64);
            lemma_power(0, inner_index as nat);
            let e = pow2(inner_index as nat) as int;
            assert(x as int / e == 0 <==> x < e) by (nonlinear_arith)
                requires
                    e > 0,
                    x >= 0,
            ;
        }
        if (self.buffer[block_index] >> (inner_index as u64)) != 0 {
            return false;
        }
        let mut i: usize = block_index + 1;
        while i < self.buffer.len()
            invariant
                block_index < i <= self.buffer@.len(),
                forall|t: int| block_index < t < i ==> self.buffer@[t] == 0,
                self.sign == Sign::Positive,
                inner_index < 64,
                (64 * (block_index as int) + inner_index as nat) as nat == power_of_two as nat,
                self.buffer@[block_index as int] < pow2(inner_index as nat),
            decreases self.buffer@.len() - i,
        {
            if self.buffer[i] != 0 {
                proof {
                    lemma_below_power(self.buffer@, block_index as int, inner_index as nat);
                }
                return false;
            }
            i = i + 1;
        }
        true
    }

    /// A word is added only where the words held and the one that bit
    /// `power_of_two` falls in do not suffice: past those, only when a carry
    /// passes the end.
    fn add(&mut self, power_of_two: u32)
        ensures
            grew_only_by_carry(
                old(self).words().len(),
                power_of_two as nat / 64,
                final(self).words(),
            ),
    {
        let (block_index, inner_index) = Self::get_block_and_inner(power_of_two as usize);
        match self.sign {
            Sign::Positive => {
                self.cascade_up(block_index, inner_index);
            },
            Sign::Negative => {
                self.cascade_down(block_index, inner_index);
            },
        }
    }

    /// A word is added only where the words held and the one that bit
    /// `power_of_two` falls in do not suffice: past those, only when a carry
    /// passes the end.
    fn sub(&mut self, power_of_two: u32)
        ensures
            grew_only_by_carry(
                old(self).words().len(),
                power_of_two as nat / 64,
                final(self).words(),
            ),
    {
        let (block_index, inner_index) = Self::get_block_and_inner(power_of_two as usize);
        match self.sign {
            Sign::Positive => {
                self.cascade_down(block_index, inner_index);
            },
            Sign::Negative => {
                self.cascade_up(block_index, inner_index);
            },
        }
    }
}

/// The words padded with zeros up to length `n`.
pub open spec fn padded(s: Seq<u64>, n: nat) -> Seq<u64> {
    Seq::new(n, |i: int| if i < s.len() { s[i] } else { 0u64 })
}

/// Padding with zero words keeps the number.
pub proof fn lemma_padded(s: Seq<u64>, n: nat)
    requires
        s.len() <= n,
    ensures
        magnitude(padded(s, n)) == magnitude(s),
{
    let p = padded(s, n);
    lemma_split(p, s.len() as int);
    assert(p.subrange(0, s.len() as int) =~= s);
    let z = p.subrange(s.len() as int, n as int);
    lemma_zero(z);
    assert forall|i: int| 0 <= i < z.len() implies z[i] == 0 by {
        assert(z[i] == p[i + s.len()]);
    }
    let q = pow2(64 * s.len());
    assert(q * magnitude(z) == 0) by (nonlinear_arith)
        requires
            magnitude(z) == 0,
    ;
}

/// Words of one length denote one number each.
pub proof fn lemma_unique(s: Seq<u64>, t: Seq<u64>)
    requires
        s.len() == t.len(),
        magnitude(s) == magnitude(t),
    ensures
        s == t,
    decreases s.len(),
{
    if s.len() > 0 {
        let s1 = s.subrange(1, s.len() as int);
        let t1 = t.subrange(1, t.len() as int);
        lemma2_to64();
        let w = pow2(64) as int;
        let a = magnitude(s1) as int;
        let b = magnitude(t1) as int;
        assert(s[0] + w * a == t[0] + w * b);
        assert(s[0] == t[0] && a == b) by (nonlinear_arith)
            requires
                s[0] + w * a == t[0] + w * b,
                0 <= s[0] < w,
                0 <= t[0] < w,
                a >= 0,
                b >= 0,
        ;
        lemma_unique(s1, t1);
        assert(s =~= t) by {
            assert forall|i: int| 0 <= i < s.len() implies s[i] == t[i] by {
                if i > 0 {
                    assert(s[i] == s1[i - 1]);
                    assert(t[i] == t1[i - 1]);
                }
            }
        }
    }
}

impl PartialEq for BigCounter {
    /// Equality of the integers held, whatever the length of the buffers
    /// and the sign flag over zero.
    fn eq(&self, other: &BigCounter) -> (r: bool) {
        let la = self.buffer.len();
        let lb = other.buffer.len();
        let n = if la < lb {
            lb
        } else {
            la
        };
        let ghost pa = padded(self.buffer@, n as nat);
        let ghost pb = padded(other.buffer@, n as nat);
        let mut same = true;
        let mut zero = true;
        let mut i: usize = 0;
        while i < n
            invariant
                la == self.buffer@.len(),
                lb == other.buffer@.len(),
                la <= n,
                lb <= n,
                pa == padded(self.buffer@, n as nat),
                pb == padded(other.buffer@, n as nat),
                i <= n,
                same == forall|t: int| 0 <= t < i ==> pa[t] == pb[t],
                zero == forall|t: int| 0 <= t < i ==> pa[t] == 0,
            decreases n - i,
        {
            let wa = if i < la {
                self.buffer[i]
            } else {
                0
            };
            let wb = if i < lb {
                other.buffer[i]
            } else {
                0
            };
            assert(wa == pa[i as int] && wb == pb[i as int]);
            same = same && wa == wb;
            zero = zero && wa == 0;
            i = i + 1;
        }
        proof {
            lemma_padded(self.buffer@, n as nat);
            lemma_padded(other.buffer@, n as nat);
            lemma_zero(pa);
            if magnitude(self.buffer@) == magnitude(other.buffer@) {
                lemma_unique(pa, pb);
            }
            if same {
                assert(pa =~= pb);
            }
        }
        same && (zero || self.sign == other.sign)
    }
}

impl vstd::std_specs::cmp::PartialEqSpecImpl for BigCounter {
    open spec fn obeys_eq_spec() -> bool {
        true
    }

    open spec fn eq_spec(&self, other: &BigCounter) -> bool {
        self.value() == other.value()
    }
}

} // verus!
