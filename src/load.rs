//! Reading DIMACS CNF text. Every literal is negated on the way in, so the
//! clauses come out in the disjunctive form the solver works on, with
//! variables counted from zero. A clause that gives some variable both
//! signs is always true; its negation constrains nothing, so it is left out.
use vstd::prelude::*;

use crate::clauses::Merge;
use crate::dnf::{consistent, raw_literals, vars_below, Sign, DNF};
use crate::{clause_literals, vars_bounded};

verus! {

/// Why DIMACS text was refused.
#[derive(Debug, PartialEq, Eq, Clone, Copy, Structural)]
pub enum ParseError {
    /// The first line that is not a comment is not `p cnf <vars> <clauses>`.
    Header,
    /// A clause holds something other than a signed decimal integer that
    /// fits 32 bits.
    Literal,
    /// A literal names a variable above the declared count.
    VariableOutOfRange,
    /// The number of clauses differs from the declared count.
    ClauseCount,
}

/// A blank: space, tab, carriage return or newline.
pub open spec fn is_space(b: u8) -> bool {
    b == 32 || b == 9 || b == 13 || b == 10
}

/// A decimal digit.
pub open spec fn is_digit(b: u8) -> bool {
    48 <= b <= 57
}

/// Where the next token starts, from `i` on: blanks are skipped, and so is
/// every line whose first byte is `c`. `line_start` tells whether `i`
/// begins a line, `in_comment` whether it lies in a comment line.
pub open spec fn next_token(s: Seq<u8>, i: int, line_start: bool, in_comment: bool) -> int
    decreases s.len() - i,
{
    if i < 0 || i >= s.len() {
        i
    } else if in_comment {
        if s[i] == 10 {
            next_token(s, i + 1, true, false)
        } else {
            next_token(s, i + 1, line_start, true)
        }
    } else if line_start && s[i] == 99 {
        next_token(s, i + 1, line_start, true)
    } else if is_space(s[i]) {
        next_token(s, i + 1, s[i] == 10, false)
    } else {
        i
    }
}

/// The end of the run of digits that starts at `i`.
pub open spec fn digits_end(s: Seq<u8>, i: int) -> int
    decreases s.len() - i,
{
    if 0 <= i < s.len() && is_digit(s[i]) {
        digits_end(s, i + 1)
    } else {
        i
    }
}

/// The number that the digits in `[i, j)` write in decimal.
pub open spec fn decimal(s: Seq<u8>, i: int, j: int) -> int
    decreases j - i,
{
    if j <= i {
        0
    } else {
        decimal(s, i, j - 1) * 10 + (s[j - 1] - 48)
    }
}

/// The integer token at `i`: an optional `-`, then decimal digits that
/// write a number of at most 32 bits, then a blank or the end of the text.
/// Gives whether it is negative, its magnitude, and where it ends.
pub open spec fn integer_at(s: Seq<u8>, i: int) -> Option<(bool, nat, int)> {
    let negative = 0 <= i < s.len() && s[i] == 45;
    let d = if negative {
        i + 1
    } else {
        i
    };
    let e = digits_end(s, d);
    if e == d || (e < s.len() && !is_space(s[e])) || decimal(s, d, e) > u32::MAX {
        None
    } else {
        Some((negative, decimal(s, d, e) as nat, e))
    }
}

/// The bytes of `w` stand at `i`, followed by a blank.
pub open spec fn word_at(s: Seq<u8>, i: int, w: Seq<u8>) -> bool {
    &&& 0 <= i
    &&& i + w.len() < s.len()
    &&& s.subrange(i, i + w.len()) == w
    &&& is_space(s[i + w.len()])
}

/// The header `p cnf <vars> <clauses>` after the leading comments: the two
/// counts and where the header ends.
pub open spec fn header(s: Seq<u8>) -> Option<(nat, nat, int)> {
    let i0 = next_token(s, 0, true, false);
    if !word_at(s, i0, seq![112u8]) {
        None
    } else {
        let i1 = next_token(s, i0 + 1, false, false);
        if !word_at(s, i1, seq![99u8, 110u8, 102u8]) {
            None
        } else {
            let i2 = next_token(s, i1 + 3, false, false);
            match integer_at(s, i2) {
                Some((false, num_vars, e2)) => {
                    let i3 = next_token(s, e2, false, false);
                    match integer_at(s, i3) {
                        Some((false, num_clauses, e3)) => Some((num_vars, num_clauses, e3)),
                        _ => None,
                    }
                },
                _ => None,
            }
        }
    }
}

/// The sign of the negation of a literal.
pub open spec fn negated(negative: bool) -> Sign {
    if negative {
        Sign::Positive
    } else {
        Sign::Negative
    }
}

/// `c` holds `var` with the other sign.
pub open spec fn conflicts(c: Seq<(u32, Sign)>, var: u32, sign: Sign) -> bool {
    exists|t: int| 0 <= t < c.len() && c[t].0 == var && c[t].1 != sign
}

/// The clauses so far, once the clause under way ends: a clause that gives
/// some variable both signs is always true, so its negation constrains
/// nothing and it is left out.
pub open spec fn close(
    done: Seq<Seq<(u32, Sign)>>,
    current: Seq<(u32, Sign)>,
    tautology: bool,
) -> Seq<Seq<(u32, Sign)>> {
    if tautology {
        done
    } else {
        done.push(current)
    }
}

/// The clauses read from `i` on, and how many clauses the text ends, given
/// the clauses `done` kept so far, the `count` of clauses ended so far, and
/// the literals of the clause under way (`tautology` when it has met a
/// variable with both signs). A `0` ends a clause, a literal `k` stands for
/// variable `k - 1` with the opposite sign, and a clause that the text
/// leaves open at its end still counts.
pub open spec fn clauses_from(
    s: Seq<u8>,
    i: int,
    num_vars: nat,
    current: Seq<(u32, Sign)>,
    tautology: bool,
    done: Seq<Seq<(u32, Sign)>>,
    count: nat,
) -> Result<(Seq<Seq<(u32, Sign)>>, nat), ParseError>
    decreases s.len() - i,
{
    let j = next_token(s, i, false, false);
    if j >= s.len() {
        Ok(
            if current.len() > 0 {
                (close(done, current, tautology), count + 1)
            } else {
                (done, count)
            },
        )
    } else {
        match integer_at(s, j) {
            None => Err(ParseError::Literal),
            Some((negative, m, e)) => {
                if !(i < e <= s.len()) {
                    // never taken: a token ends inside the text, after the
                    // place it is sought from
                    Err(ParseError::Literal)
                } else if m == 0 {
                    clauses_from(
                        s,
                        e,
                        num_vars,
                        seq![],
                        false,
                        close(done, current, tautology),
                        count + 1,
                    )
                } else if m > num_vars {
                    Err(ParseError::VariableOutOfRange)
                } else if conflicts(current, (m - 1) as u32, negated(negative)) {
                    clauses_from(s, e, num_vars, current, true, done, count)
                } else {
                    clauses_from(
                        s,
                        e,
                        num_vars,
                        current.push(((m - 1) as u32, negated(negative))),
                        tautology,
                        done,
                        count,
                    )
                }
            },
        }
    }
}

/// What DIMACS CNF text reads as: its clauses, negated, without the ones
/// that are always true, and the declared variable and clause counts; or
/// why it is refused. The declared clause count counts every clause.
pub open spec fn dimacs(s: Seq<u8>) -> Result<(Seq<Seq<(u32, Sign)>>, nat, nat), ParseError> {
    match header(s) {
        None => Err(ParseError::Header),
        Some((num_vars, num_clauses, e)) => match clauses_from(
            s,
            e,
            num_vars,
            seq![],
            false,
            seq![],
            0,
        ) {
            Err(x) => Err(x),
            Ok((c, count)) => if count != num_clauses {
                Err(ParseError::ClauseCount)
            } else {
                Ok((c, num_vars, num_clauses))
            },
        },
    }
}

/// The literal lists of a vector of clauses.
pub open spec fn lists(v: Seq<Vec<(u32, Sign)>>) -> Seq<Seq<(u32, Sign)>> {
    v.map_values(|c: Vec<(u32, Sign)>| c@)
}

fn space(b: u8) -> (r: bool)
    ensures
        r == is_space(b),
{
    b == 32 || b == 9 || b == 13 || b == 10
}

/// Skips blanks and comment lines.
fn skip_blank(input: &[u8], start: usize, line_start: bool) -> (r: usize)
    requires
        start <= input@.len(),
    ensures
        start <= r <= input@.len(),
        r == next_token(input@, start as int, line_start, false),
{
    let mut i = start;
    let mut at_line_start = line_start;
    let mut in_comment = false;
    while i < input.len()
        invariant
            start <= i <= input@.len(),
            next_token(input@, i as int, at_line_start, in_comment) == next_token(
                input@,
                start as int,
                line_start,
                false,
            ),
        decreases input@.len() - i,
    {
        let b = input[i];
        if in_comment {
            if b == 10 {
                in_comment = false;
                at_line_start = true;
            }
        } else if at_line_start && b == 99 {
            in_comment = true;
        } else if space(b) {
            at_line_start = b == 10;
        } else {
            return i;
        }
        i = i + 1;
    }
    i
}

proof fn lemma_decimal_grows(s: Seq<u8>, i: int, j: int, k: int)
    requires
        i <= j <= k,
        forall|t: int| i <= t < k ==> is_digit(s[t]),
    ensures
        decimal(s, i, j) <= decimal(s, i, k),
        decimal(s, i, j) >= 0,
    decreases k - i,
{
    if j < k {
        lemma_decimal_grows(s, i, j, k - 1);
    } else if j > i {
        lemma_decimal_grows(s, i, j - 1, j - 1);
    }
}

/// Reads the integer token at `start`.
fn read_integer(input: &[u8], start: usize) -> (r: Option<(bool, u32, usize)>)
    requires
        start <= input@.len(),
    ensures
        match r {
            Some((negative, m, end)) => integer_at(input@, start as int) == Some(
                (negative, m as nat, end as int),
            ),
            None => integer_at(input@, start as int) is None,
        },
        r matches Some((_, _, end)) ==> start < end <= input@.len(),
{
    let ghost s = input@;
    let mut i = start;
    let mut negative = false;
    if i < input.len() && input[i] == 45 {
        negative = true;
        i = i + 1;
    }
    let digits_start = i;
    let mut value: u64 = 0;
    while i < input.len() && 48 <= input[i] && input[i] <= 57
        invariant
            s == input@,
            start <= digits_start <= i <= input@.len(),
            negative == (0 <= start < s.len() && s[start as int] == 45),
            digits_start == if negative {
                start + 1
            } else {
                start as int
            },
            value <= u32::MAX,
            value == decimal(s, digits_start as int, i as int),
            digits_end(s, i as int) == digits_end(s, digits_start as int),
            forall|t: int| digits_start <= t < i ==> is_digit(s[t]),
        decreases input@.len() - i,
    {
        value = value * 10 + (input[i] - 48) as u64;
        assert(value == decimal(s, digits_start as int, i + 1));
        if value > u32::MAX as u64 {
            proof {
                let e = digits_end(s, digits_start as int);
                lemma_digits_run(s, i as int);
                assert(i < e);
                assert forall|t: int| digits_start <= t < e implies is_digit(s[t]) by {
                    if t >= i {
                        assert(i <= t < digits_end(s, i as int));
                    }
                }
                lemma_decimal_grows(s, digits_start as int, i + 1, e);
                assert(decimal(s, digits_start as int, e) > u32::MAX);
            }
            return None;
        }
        assert(digits_end(s, i as int) == digits_end(s, i + 1));
        i = i + 1;
    }
    assert(digits_end(s, i as int) == i);
    if i == digits_start || (i < input.len() && !space(input[i])) {
        return None;
    }
    Some((negative, value as u32, i))
}

proof fn lemma_digits_run(s: Seq<u8>, i: int)
    requires
        0 <= i < s.len(),
        is_digit(s[i]),
    ensures
        i < digits_end(s, i),
        forall|t: int| i <= t < digits_end(s, i) ==> is_digit(s[t]),
    decreases s.len() - i,
{
    assert(digits_end(s, i) == digits_end(s, i + 1));
    if i + 1 < s.len() && is_digit(s[i + 1]) {
        lemma_digits_run(s, i + 1);
    } else {
        assert(digits_end(s, i + 1) == i + 1);
    }
}

/// Whether `c` holds `var` with the other sign.
fn has_conflict(c: &Vec<(u32, Sign)>, var: u32, sign: Sign) -> (r: bool)
    ensures
        r == conflicts(c@, var, sign),
{
    let mut k: usize = 0;
    while k < c.len()
        invariant
            k <= c@.len(),
            forall|t: int| 0 <= t < k ==> c@[t].0 == var ==> c@[t].1 == sign,
        decreases c@.len() - k,
    {
        if c[k].0 == var && c[k].1 != sign {
            return true;
        }
        k = k + 1;
    }
    false
}

/// Expects `word` at `start`, followed by a blank.
fn expect_word(input: &[u8], start: usize, word: &[u8]) -> (r: Option<usize>)
    requires
        start <= input@.len(),
    ensures
        match r {
            Some(end) => word_at(input@, start as int, word@) && end == start + word@.len(),
            None => !word_at(input@, start as int, word@),
        },
        r matches Some(end) ==> start <= end <= input@.len(),
{
    let n = input.len();
    let mut k: usize = 0;
    while k < word.len()
        invariant
            n == input@.len(),
            start <= input@.len(),
            k <= word@.len(),
            start + k <= input@.len(),
            input@.subrange(start as int, start + k) == word@.subrange(0, k as int),
        decreases word@.len() - k,
    {
        if k >= input.len() - start || input[start + k] != word[k] {
            proof {
                if start + word@.len() < input@.len() && input@.subrange(
                    start as int,
                    start + word@.len(),
                ) == word@ {
                    assert(input@[start + k] == input@.subrange(start as int, start + word@.len())[k as int]);
                }
            }
            return None;
        }
        k = k + 1;
        assert(input@.subrange(start as int, start + k) =~= word@.subrange(0, k as int));
    }
    assert(word@.subrange(0, k as int) =~= word@);
    let end = start + word.len();
    if end < input.len() && space(input[end]) {
        Some(end)
    } else {
        None
    }
}

/// Reads the header and the clauses of DIMACS CNF text, negating every
/// literal and numbering variables from zero: exactly what `dimacs` says of
/// the text. On success no clause gives a variable both signs, there are no
/// more clauses than declared, and every variable is below the declared
/// variable count.
pub fn parse_clauses(input: &[u8]) -> (r: Result<(Vec<Vec<(u32, Sign)>>, u32, u32), ParseError>)
    ensures
        match r {
            Ok((raw, num_vars, num_clauses)) => dimacs(input@) == Ok::<
                (Seq<Seq<(u32, Sign)>>, nat, nat),
                ParseError,
            >((lists(raw@), num_vars as nat, num_clauses as nat)),
            Err(e) => dimacs(input@) == Err::<(Seq<Seq<(u32, Sign)>>, nat, nat), ParseError>(e),
        },
        r matches Ok((raw, num_vars, num_clauses)) ==> {
            &&& raw@.len() <= num_clauses
            &&& forall|i: int|
                0 <= i < raw@.len() ==> consistent(#[trigger] raw@[i]@) && vars_below(
                    raw@[i]@,
                    num_vars as nat,
                )
        },
{
    let ghost s = input@;
    let i = skip_blank(input, 0, true);
    let i = match expect_word(input, i, &[112u8]) {
        Some(e) => e,
        None => {
            assert(seq![112u8] =~= [112u8]@);
            return Err(ParseError::Header);
        },
    };
    assert(seq![112u8] =~= [112u8]@);
    let i = skip_blank(input, i, false);
    let i = match expect_word(input, i, &[99u8, 110u8, 102u8]) {
        Some(e) => e,
        None => {
            assert(seq![99u8, 110u8, 102u8] =~= [99u8, 110u8, 102u8]@);
            return Err(ParseError::Header);
        },
    };
    assert(seq![99u8, 110u8, 102u8] =~= [99u8, 110u8, 102u8]@);
    let i = skip_blank(input, i, false);
    let (num_vars, i) = match read_integer(input, i) {
        Some((false, v, e)) => (v, e),
        _ => {
            return Err(ParseError::Header);
        },
    };
    let i = skip_blank(input, i, false);
    let (num_clauses, mut i) = match read_integer(input, i) {
        Some((false, v, e)) => (v, e),
        _ => {
            return Err(ParseError::Header);
        },
    };
    assert(header(s) == Some((num_vars as nat, num_clauses as nat, i as int)));
    let ghost body = i as int;
    let mut clauses: Vec<Vec<(u32, Sign)>> = Vec::new();
    let mut current: Vec<(u32, Sign)> = Vec::new();
    let mut tautology = false;
    let mut count: usize = 0;
    let n = input.len();
    assert(lists(clauses@) =~= Seq::<Seq<(u32, Sign)>>::empty());
    while i < input.len()
        invariant
            n == input@.len(),
            s == input@,
            i <= input@.len(),
            0 <= body <= i,
            count <= i - body,
            clauses@.len() <= count,
            header(s) == Some((num_vars as nat, num_clauses as nat, body)),
            clauses_from(
                s,
                i as int,
                num_vars as nat,
                current@,
                tautology,
                lists(clauses@),
                count as nat,
            ) == clauses_from(s, body, num_vars as nat, seq![], false, seq![], 0),
            consistent(current@),
            vars_below(current@, num_vars as nat),
            forall|k: int|
                0 <= k < clauses@.len() ==> consistent(#[trigger] clauses@[k]@) && vars_below(
                    clauses@[k]@,
                    num_vars as nat,
                ),
        decreases input@.len() - i,
    {
        let j = skip_blank(input, i, false);
        if j == input.len() {
            i = j;
        } else {
            let (negative, magnitude, end) = match read_integer(input, j) {
                Some(t) => t,
                None => {
                    return Err(ParseError::Literal);
                },
            };
            if magnitude == 0 {
                let ghost old_current = current@;
                let ghost old_clauses = clauses@;
                if !tautology {
                    clauses.push(current);
                    assert(lists(clauses@) =~= lists(old_clauses).push(old_current));
                }
                current = Vec::new();
                tautology = false;
                count = count + 1;
                assert(current@ =~= Seq::<(u32, Sign)>::empty());
            } else {
                if magnitude > num_vars {
                    return Err(ParseError::VariableOutOfRange);
                }
                let var = magnitude - 1;
                // the clause is negated: a negative literal becomes positive
                let sign = if negative {
                    Sign::Positive
                } else {
                    Sign::Negative
                };
                if has_conflict(&current, var, sign) {
                    tautology = true;
                } else {
                    current.push((var, sign));
                }
            }
            i = end;
        }
    }
    assert(next_token(s, i as int, false, false) == i);
    let ghost old_current = current@;
    let ghost old_clauses = clauses@;
    if current.len() > 0 {
        if !tautology {
            clauses.push(current);
            assert(lists(clauses@) =~= lists(old_clauses).push(old_current));
        }
        count = count + 1;
    }
    if count != num_clauses as usize {
        return Err(ParseError::ClauseCount);
    }
    Ok((clauses, num_vars, num_clauses))
}

/// Reads DIMACS CNF text into the clauses of a representation: exactly
/// the clauses that `dimacs` reads from the text, in order, with the
/// declared variable count and the number of clauses kept (clauses that are
/// always true are left out); or the error that `dimacs` gives. What it
/// returns satisfies what `solve` requires of its input.
pub fn parse_dimacs<T: Merge>(input: &[u8]) -> (r: Result<(DNF<T>, u32, u32), ParseError>)
    ensures
        r is Ok <==> dimacs(input@) is Ok,
        match r {
            Ok((dnf, num_vars, num_clauses)) => {
                let (c, declared_vars, _) = dimacs(input@)->Ok_0;
                &&& num_vars == declared_vars
                &&& num_clauses == c.len()
                &&& dnf@.len() == c.len()
                &&& forall|i: int|
                    0 <= i < c.len() ==> #[trigger] clause_literals(&dnf)[i] == raw_literals(c[i])
                &&& dnf.wf()
                &&& vars_bounded(clause_literals(&dnf), num_vars as nat)
            },
            Err(e) => dimacs(input@) == Err::<(Seq<Seq<(u32, Sign)>>, nat, nat), ParseError>(e),
        },
{
    match parse_clauses(input) {
        Ok((raw, num_vars, num_clauses)) => {
            let ghost g = raw@;
            assert forall|i: int| 0 <= i < raw@.len() implies consistent(#[trigger] raw@[i]@)
                && vars_below(raw@[i]@, u32::MAX as nat) by {
                assert(vars_below(raw@[i]@, num_vars as nat));
            }
            let kept = raw.len() as u32;
            let dnf = T::from_vec(raw);
            proof {
                assert forall|i: int, v: nat|
                    0 <= i < clause_literals(&dnf).len() && #[trigger] clause_literals(
                        &dnf,
                    )[i].contains_key(v) implies v < num_vars by {
                    crate::dnf::lemma_raw_literals(g[i]@);
                    assert(clause_literals(&dnf)[i] == raw_literals(g[i]@));
                    let k = choose|k: int| 0 <= k < g[i]@.len() && g[i]@[k].0 as nat == v;
                }
                assert forall|i: int| 0 <= i < g.len() implies #[trigger] clause_literals(&dnf)[i]
                    == raw_literals(lists(g)[i]) by {
                    assert(lists(g)[i] == g[i]@);
                }
            }
            Ok((dnf, num_vars, kept))
        },
        Err(e) => Err(e),
    }
}

} // verus!
