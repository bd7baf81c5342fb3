use inc_exc::clauses::map::MapClause;
use inc_exc::clauses::vec::VecClause;
use inc_exc::counters::bignum::BigCounter;
use inc_exc::counters::Counter;
use inc_exc::Merge;
use inc_exc::dnf::Sign;
use inc_exc::load::{parse_clauses, parse_dimacs, ParseError};
use inc_exc::{solve, SolutionResult};

#[test]
fn negates_and_counts_from_zero() {
    let text = "c a comment\nc another\np cnf 3 2\n1 -3 0\n2 0\n";
    let (raw, num_vars, num_clauses) = parse_clauses(text.as_bytes()).unwrap();
    assert_eq!(num_vars, 3);
    assert_eq!(num_clauses, 2);
    assert_eq!(
        raw,
        vec![vec![(0, Sign::Negative), (2, Sign::Positive)], vec![(1, Sign::Negative)]]
    );
}

#[test]
fn comments_between_clauses_and_open_last_clause() {
    let text = "p cnf 2 3\n1 2 0\nc between\n-1\n 2 0\n-2";
    let (raw, _, _) = parse_clauses(text.as_bytes()).unwrap();
    assert_eq!(
        raw,
        vec![
            vec![(0, Sign::Negative), (1, Sign::Negative)],
            vec![(0, Sign::Positive), (1, Sign::Negative)],
            vec![(1, Sign::Positive)],
        ]
    );
}

#[test]
fn parsed_contradiction_is_unsatisfiable() {
    let text = "c (x1) and (not x1)\np cnf 1 2\n1 0\n-1 0\n";
    let (dnf, num_vars, num_clauses) = parse_dimacs::<VecClause>(text.as_bytes()).unwrap();
    let (verdict, depth, counter) = solve::<VecClause, BigCounter>(&dnf, num_vars, num_clauses, 5);
    assert_eq!(verdict, SolutionResult::Unsatisfiable);
    assert_eq!(depth, 2);
    assert!(counter.equal(1));
}

#[test]
fn parsed_satisfiable_formula() {
    let text = "p cnf 2 3\n1 2 0\n-1 2 0\n1 -2 0\n";
    let (dnf, num_vars, num_clauses) = parse_dimacs::<MapClause>(text.as_bytes()).unwrap();
    let (verdict, depth, _) = solve::<MapClause, BigCounter>(&dnf, num_vars, num_clauses, 2);
    assert_eq!(verdict, SolutionResult::Satisfiable);
    assert_eq!(depth, 1);
}

#[test]
fn header_errors() {
    assert_eq!(parse_clauses(b"q cnf 1 1\n1 0\n").unwrap_err(), ParseError::Header);
    assert_eq!(parse_clauses(b"p cnf x 1\n1 0\n").unwrap_err(), ParseError::Header);
    assert_eq!(parse_clauses(b"p cnf -1 1\n1 0\n").unwrap_err(), ParseError::Header);
    assert_eq!(parse_clauses(b"").unwrap_err(), ParseError::Header);
}

#[test]
fn literal_errors() {
    assert_eq!(parse_clauses(b"p cnf 2 1\n1 x 0\n").unwrap_err(), ParseError::Literal);
    assert_eq!(parse_clauses(b"p cnf 2 1\n1 2a 0\n").unwrap_err(), ParseError::Literal);
    assert_eq!(parse_clauses(b"p cnf 2 1\n1 99999999999 0\n").unwrap_err(), ParseError::Literal);
}

#[test]
fn variable_out_of_range() {
    assert_eq!(
        parse_clauses(b"p cnf 1 1\n2 0\n").unwrap_err(),
        ParseError::VariableOutOfRange
    );
}

#[test]
fn always_true_clause_is_left_out() {
    // x1 or not x1 holds under every assignment: its negation is empty
    let (raw, num_vars, num_clauses) = parse_clauses(b"p cnf 2 2\n1 -1 2 0\n-2 0\n").unwrap();
    assert_eq!(raw, vec![vec![(1, Sign::Positive)]]);
    assert_eq!((num_vars, num_clauses), (2, 2));
    let (dnf, num_vars, num_clauses) = parse_dimacs::<VecClause>(b"p cnf 2 2\n1 -1 2 0\n-2 0\n").unwrap();
    assert_eq!((num_vars, num_clauses), (2, 1));
    assert_eq!(dnf.len(), 1);
    // a repeated literal is fine
    let (raw, _, _) = parse_clauses(b"p cnf 2 1\n1 1 0\n").unwrap();
    assert_eq!(raw, vec![vec![(0, Sign::Negative), (0, Sign::Negative)]]);
}

#[test]
fn commented_single_clause() {
    let (dnf, num_vars, num_clauses) = parse_dimacs::<VecClause>(b"c note\np cnf 2 1\n1 -2 0\n").unwrap();
    assert_eq!((num_vars, num_clauses), (2, 1));
    assert_eq!(dnf.index(0).duplicate().into_vec(), vec![(0, Sign::Negative), (1, Sign::Positive)]);
}

#[test]
fn contradiction_clauses_negated() {
    let (dnf, num_vars, num_clauses) = parse_dimacs::<VecClause>(b"p cnf 1 2\n1 0\n-1 0\n").unwrap();
    assert_eq!((num_vars, num_clauses), (1, 2));
    assert_eq!(dnf.index(0).duplicate().into_vec(), vec![(0, Sign::Negative)]);
    assert_eq!(dnf.index(1).duplicate().into_vec(), vec![(0, Sign::Positive)]);
}

#[test]
fn oversized_header_number() {
    assert_eq!(
        parse_dimacs::<VecClause>(b"p cnf 99999999999 1\n1 0\n").err(),
        Some(ParseError::Header)
    );
}

#[test]
fn clause_count_mismatch() {
    assert_eq!(parse_clauses(b"p cnf 1 2\n1 0\n").unwrap_err(), ParseError::ClauseCount);
    assert_eq!(parse_clauses(b"p cnf 1 0\n1 0\n").unwrap_err(), ParseError::ClauseCount);
    assert_eq!(parse_dimacs::<MapClause>(b"p cnf 1 3\n1 0\n").err(), Some(ParseError::ClauseCount));
    assert_eq!(
        parse_dimacs::<MapClause>(b"p cnf 1 1\n-2 0\n").err(),
        Some(ParseError::VariableOutOfRange)
    );
}
