use inc_exc::clauses::bit::BitClause;
use inc_exc::clauses::compressed::BitClause as RoaringClause;
use inc_exc::clauses::map::MapClause;
use inc_exc::clauses::vec::VecClause;
use inc_exc::clauses::vec_bit::AdaClause;
use inc_exc::counters::bignum::BigCounter;
use inc_exc::counters::Counter;
use inc_exc::dnf::{Sign, DNF};
use inc_exc::{solve, Merge, MergeResult, SolutionResult};

fn contradiction() -> Vec<Vec<(u32, Sign)>> {
    // (x1) and (not x1), negated, variables counted from zero
    vec![vec![(0, Sign::Negative)], vec![(0, Sign::Positive)]]
}

fn satisfiable_three() -> Vec<Vec<(u32, Sign)>> {
    // (x1 or x2) and (not x1 or x2) and (x1 or not x2), negated
    vec![
        vec![(0, Sign::Negative), (1, Sign::Negative)],
        vec![(0, Sign::Positive), (1, Sign::Negative)],
        vec![(0, Sign::Negative), (1, Sign::Positive)],
    ]
}

fn run<C: Merge>(raw: Vec<Vec<(u32, Sign)>>, num_vars: u32, max_size: usize) -> (SolutionResult, usize, BigCounter) {
    let n = raw.len() as u32;
    let dnf: DNF<C> = C::from_vec(raw);
    solve::<C, BigCounter>(&dnf, num_vars, n, max_size)
}

fn check_unsat<C: Merge>() {
    let (verdict, depth, counter) = run::<C>(contradiction(), 1, 4);
    assert_eq!(verdict, SolutionResult::Unsatisfiable);
    assert_eq!(depth, 2);
    assert!(counter.equal(1));
    assert!(!counter.equal(0));
}

fn check_sat<C: Merge>() {
    for max_size in 2..5 {
        let (verdict, depth, counter) = run::<C>(satisfiable_three(), 2, max_size);
        assert_eq!(verdict, SolutionResult::Satisfiable);
        assert_eq!(depth, 1);
        // three merged clauses of two variables: 1 + 1 + 1 assignments
        assert!(counter.less_than(2));
        assert!(!counter.less_than(1));
    }
}

#[test]
fn unsatisfiable_minimal_vec() {
    check_unsat::<VecClause>();
}

#[test]
fn unsatisfiable_minimal_map() {
    check_unsat::<MapClause>();
}

#[test]
fn unsatisfiable_minimal_bit() {
    check_unsat::<BitClause>();
}

#[test]
fn unsatisfiable_minimal_roaring() {
    check_unsat::<RoaringClause>();
}

#[test]
fn unsatisfiable_minimal_adaptive() {
    check_unsat::<AdaClause>();
}

#[test]
fn satisfiable_every_representation() {
    check_sat::<VecClause>();
    check_sat::<MapClause>();
    check_sat::<BitClause>();
    check_sat::<RoaringClause>();
    check_sat::<AdaClause>();
}

#[test]
fn max_size_zero_is_inconclusive() {
    let (verdict, depth, counter) = run::<VecClause>(contradiction(), 1, 0);
    assert_eq!(verdict, SolutionResult::Inconclusive);
    assert_eq!(depth, 0);
    assert!(counter.less_than(0));
    assert!(!counter.is_negative());
    assert_eq!(counter.to_words(), vec![0]);
}

#[test]
fn truncated_search_is_inconclusive() {
    // one clause over one of two variables: the first generation counts
    // 2 assignments out of 4, so the odd bound fires at once
    let (verdict, depth, _) = run::<VecClause>(vec![vec![(0, Sign::Positive)]], 2, 3);
    assert_eq!(verdict, SolutionResult::Satisfiable);
    assert_eq!(depth, 1);
    // every assignment of one variable violates one of the two unit
    // clauses, but a depth of one cannot show it
    let (verdict, depth, counter) = run::<VecClause>(contradiction(), 1, 1);
    assert_eq!(verdict, SolutionResult::Inconclusive);
    assert_eq!(depth, 1);
    assert!(counter.equal(1));
}

#[test]
fn unrelated_clause_keeps_contradiction() {
    // every assignment violates x1 or not x1, whatever x2 holds
    let raw = vec![
        vec![(0, Sign::Negative)],
        vec![(0, Sign::Positive)],
        vec![(1, Sign::Positive)],
    ];
    let (verdict, depth, _) = run::<MapClause>(raw, 2, 6);
    assert_eq!(verdict, SolutionResult::Unsatisfiable);
    assert_eq!(depth, 2);
}

fn merged_len<C: Merge>(r: MergeResult<C>) -> Option<usize> {
    match r {
        MergeResult::Merged(c) => Some(c.len()),
        MergeResult::Incompatible => None,
    }
}

fn check_merge<C: Merge>() {
    let dnf: DNF<C> = C::from_vec(vec![
        vec![(3, Sign::Positive), (1, Sign::Negative)],
        vec![(1, Sign::Negative), (7, Sign::Positive)],
        vec![(3, Sign::Negative)],
        vec![(5, Sign::Positive), (5, Sign::Positive)],
    ]);
    let a = dnf.index(0);
    let b = dnf.index(1);
    let c = dnf.index(2);
    let d = dnf.index(3);
    assert_eq!(a.len(), 2);
    assert_eq!(d.len(), 1);
    // shared variable with the same sign collapses
    assert_eq!(merged_len(C::merge(a.duplicate(), b, 0)), Some(3));
    assert_eq!(merged_len(C::merge(b.duplicate(), a, 0)), Some(3));
    // opposite signs conflict, in both orders
    assert_eq!(merged_len(C::merge(a.duplicate(), c, 0)), None);
    assert_eq!(merged_len(C::merge(c.duplicate(), a, 0)), None);
    // a variable absent from one side is no conflict
    assert_eq!(merged_len(C::merge(b.duplicate(), c, 0)), Some(3));
    assert_eq!(merged_len(C::merge(C::new_empty(), d, 0)), Some(1));
    // order of merging does not matter
    let ab_d = match C::merge(a.duplicate(), b, 0) {
        MergeResult::Merged(x) => merged_len(C::merge(x, d, 0)),
        MergeResult::Incompatible => None,
    };
    let ad_b = match C::merge(a.duplicate(), d, 0) {
        MergeResult::Merged(x) => merged_len(C::merge(x, b, 0)),
        MergeResult::Incompatible => None,
    };
    assert_eq!(ab_d, Some(4));
    assert_eq!(ab_d, ad_b);
    let ab_c = match C::merge(a.duplicate(), b, 0) {
        MergeResult::Merged(x) => merged_len(C::merge(x, c, 0)),
        MergeResult::Incompatible => None,
    };
    let ac_b = match C::merge(a.duplicate(), c, 0) {
        MergeResult::Merged(x) => merged_len(C::merge(x, b, 0)),
        MergeResult::Incompatible => None,
    };
    assert_eq!(ab_c, None);
    assert_eq!(ac_b, None);
}

#[test]
fn merge_laws_every_representation() {
    check_merge::<VecClause>();
    check_merge::<MapClause>();
    check_merge::<BitClause>();
    check_merge::<RoaringClause>();
    check_merge::<AdaClause>();
}

#[test]
fn from_vec_twice_agrees() {
    let first: DNF<MapClause> = MapClause::from_vec(satisfiable_three());
    let second: DNF<MapClause> = MapClause::from_vec(satisfiable_three());
    for i in 0..3 {
        for j in 0..3 {
            let x = merged_len(MapClause::merge(first.index(i).duplicate(), first.index(j), 0));
            let y = merged_len(MapClause::merge(second.index(i).duplicate(), second.index(j), 0));
            assert_eq!(x, y);
        }
    }
    assert_eq!(first.len(), 3);
}

#[test]
fn vec_clause_sorts_and_dedups() {
    let dnf: DNF<VecClause> = VecClause::from_vec(vec![vec![
        (9, Sign::Positive),
        (2, Sign::Negative),
        (9, Sign::Positive),
        (4, Sign::Positive),
    ]]);
    let list = dnf.index(0).duplicate().into_vec();
    assert_eq!(list, vec![(2, Sign::Negative), (4, Sign::Positive), (9, Sign::Positive)]);
}

#[test]
fn adaptive_switches_to_bits() {
    // with a hint of 20 variables a clause of two literals is dense:
    // 2 * 40 bits of list against 2 * 20 bits of bitsets
    let dnf: DNF<AdaClause> = AdaClause::from_vec(vec![
        vec![(1, Sign::Positive)],
        vec![(2, Sign::Negative)],
        vec![(1, Sign::Negative)],
    ]);
    let merged = match AdaClause::merge(dnf.index(0).duplicate(), dnf.index(1), 20) {
        MergeResult::Merged(c) => c,
        MergeResult::Incompatible => panic!("compatible clauses"),
    };
    assert!(matches!(merged, AdaClause::Bit(_)));
    assert_eq!(merged.len(), 2);
    assert!(matches!(AdaClause::merge(merged, dnf.index(2), 20), MergeResult::Incompatible));
    // at 40 variables two literals are not above the threshold of 2
    let sparse = match AdaClause::merge(dnf.index(0).duplicate(), dnf.index(1), 40) {
        MergeResult::Merged(c) => c,
        MergeResult::Incompatible => panic!("compatible clauses"),
    };
    assert!(matches!(sparse, AdaClause::Vec(_)));
    let dense = match AdaClause::merge(dnf.index(0).duplicate(), dnf.index(1), 39) {
        MergeResult::Merged(c) => c,
        MergeResult::Incompatible => panic!("compatible clauses"),
    };
    assert!(matches!(dense, AdaClause::Bit(_)));
    // a bitset operand keeps the result a bitset, however sparse
    let kept = match AdaClause::merge(dense, dnf.index(0), 6400) {
        MergeResult::Merged(c) => c,
        MergeResult::Incompatible => panic!("compatible clauses"),
    };
    assert!(matches!(kept, AdaClause::Bit(_)));
    assert!((0..3).all(|i| matches!(dnf.index(i), AdaClause::Vec(_))));
}

#[test]
fn sign_negation() {
    assert_eq!(Sign::Positive.not(), Sign::Negative);
    assert_eq!(Sign::Negative.not(), Sign::Positive);
}

#[test]
fn no_clauses_is_satisfiable() {
    let (verdict, depth, counter) = run::<BitClause>(vec![], 3, 4);
    assert_eq!(verdict, SolutionResult::Satisfiable);
    assert_eq!(depth, 1);
    assert!(counter.less_than(0));
}

#[test]
fn empty_clause_covers_everything() {
    // an empty CNF clause is violated by every assignment
    let (verdict, depth, counter) = run::<RoaringClause>(vec![vec![]], 2, 4);
    assert_eq!(verdict, SolutionResult::Unsatisfiable);
    assert_eq!(depth, 2);
    assert!(counter.equal(2));
}
