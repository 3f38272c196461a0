use meowc::check_sat::{check_sat, Lit as SignedLit, SatError};
use meowc::dimacs::{lex, parse_cnf, parse_dimacs, parse_proof, ParseError};
use meowc::types::SatResult;

fn verdict(cnf_text: &str, proof_text: &str) -> Result<(), SatError> {
    let cnf = parse_cnf(cnf_text.as_bytes()).unwrap();
    let proof = parse_proof(proof_text.as_bytes()).unwrap();
    let clauses: Vec<Vec<SignedLit>> = cnf
        .clauses
        .iter()
        .map(|c| c.iter().map(|&n| SignedLit::from_dimacs_unchecked(n)).collect())
        .collect();
    let lits: Vec<SignedLit> = proof.iter().map(|&n| SignedLit::from_dimacs_unchecked(n)).collect();
    check_sat(&clauses, &lits, cnf.num_vars, cnf.num_clauses)
}

#[test]
fn parse_header_and_clauses() {
    let cnf = parse_cnf(b"c a comment\np cnf 3 2\n1 -2 0\n3\n-1 0\n").unwrap();
    assert_eq!(cnf.num_vars, 3);
    assert_eq!(cnf.num_clauses, 2);
    assert_eq!(cnf.clauses, vec![vec![1, -2], vec![3, -1]]);
}

#[test]
fn parse_skips_comment_lines_only_at_line_start() {
    let words = lex(b"c skip me 1 2\np cnf 1 1\n  1 0\nc 5 0\n");
    let words: Vec<String> = words.iter().map(|w| String::from_utf8(w.clone()).unwrap()).collect();
    assert_eq!(words, vec!["p", "cnf", "1", "1", "1", "0"]);
}

#[test]
fn parse_rejects_bad_header() {
    assert_eq!(parse_cnf(b"1 2 0\n").err(), Some(ParseError::BadHeader));
    assert_eq!(parse_cnf(b"p dnf 1 1\n1 0\n").err(), Some(ParseError::BadHeader));
    assert_eq!(parse_cnf(b"p cnf x 1\n").err(), Some(ParseError::BadHeader));
    assert_eq!(parse_cnf(b"p cnf 4294967296 1\n").err(), Some(ParseError::BadHeader));
}

#[test]
fn parse_rejects_bad_literal() {
    assert_eq!(parse_cnf(b"p cnf 2 1\n1 x 0\n").err(), Some(ParseError::BadLiteral));
    assert_eq!(parse_cnf(b"p cnf 2 1\n2147483648 0\n").err(), Some(ParseError::BadLiteral));
    assert_eq!(parse_cnf(b"p cnf 2 1\n-2147483647 0\n").unwrap().clauses, vec![vec![-2147483647]]);
}

#[test]
fn parse_rejects_unterminated_clause() {
    assert_eq!(parse_cnf(b"p cnf 2 1\n1 2\n").err(), Some(ParseError::UnterminatedClause));
}

#[test]
fn parse_proof_literals() {
    assert_eq!(parse_proof(b"1 -2\n3 0\n").unwrap(), vec![1, -2, 3]);
    assert_eq!(parse_proof(b"1 two").err(), Some(ParseError::BadLiteral));
}

#[test]
fn parse_dimacs_builds_solver() {
    let mut solver = parse_dimacs("p cnf 3 3 \n 1 0 \n -1 2 0 \n -2 3 0").unwrap();
    assert_eq!(solver.num_vars(), 3);
    assert_eq!(solver.num_clauses(), 3);
    assert_eq!(solver.solve(), SatResult::Sat);
    assert_eq!(solver.model(), vec![1, 2, 3]);
}

#[test]
fn parse_dimacs_rejects_out_of_range_literal() {
    assert_eq!(parse_dimacs("p cnf 2 1\n1 3 0\n").err().map(|e| e), Some(ParseError::VarOutOfRange));
}

#[test]
fn end_to_end_trivial_sat() {
    let mut solver = parse_dimacs("p cnf 1 1 \n 1 0").unwrap();
    assert_eq!(solver.solve(), SatResult::Sat);
    assert_eq!(solver.model(), vec![1]);
    assert_eq!(verdict("p cnf 1 1 \n 1 0", "1"), Ok(()));
}

#[test]
fn end_to_end_trivial_unsat() {
    let mut solver = parse_dimacs("p cnf 1 2 \n 1 0 \n -1 0").unwrap();
    assert_eq!(solver.solve(), SatResult::Unsat);
}

#[test]
fn end_to_end_inconsistent_proof() {
    assert_eq!(verdict("p cnf 2 1 \n 1 2 0", "1 -1"), Err(SatError::Inconsistent));
}

#[test]
fn end_to_end_wrong_clause_count() {
    assert_eq!(verdict("p cnf 2 2\n1 0\n2 0\n1 2 0\n", "1 2"), Err(SatError::WrongNumberOfClauses));
}
