use meowc::check_sat::{check_sat, Lit, SatError};
use meowc::checker::{check_sat as check_uncounted, SatResult};

fn lits(ns: &[i32]) -> Vec<Lit> {
    ns.iter().map(|&n| Lit::from_dimacs_unchecked(n)).collect()
}

fn formula(cs: &[&[i32]]) -> Vec<Vec<Lit>> {
    cs.iter().map(|c| lits(c)).collect()
}

#[test]
fn checker_verifies_model() {
    let f = formula(&[&[1, 2], &[-1, 2]]);
    assert_eq!(check_sat(&f, &lits(&[-1, 2]), 2, 2), Ok(()));
}

#[test]
fn checker_trivial_sat() {
    let f = formula(&[&[1]]);
    assert_eq!(check_sat(&f, &lits(&[1]), 1, 1), Ok(()));
}

#[test]
fn checker_rejects_inconsistent_proof() {
    let f = formula(&[&[1, 2]]);
    assert_eq!(check_sat(&f, &lits(&[1, -1]), 2, 1), Err(SatError::Inconsistent));
}

#[test]
fn checker_rejects_wrong_clause_count() {
    let f = formula(&[&[1], &[2], &[1, 2]]);
    assert_eq!(check_sat(&f, &lits(&[1, 2]), 2, 2), Err(SatError::WrongNumberOfClauses));
}

#[test]
fn checker_rejects_too_few_clauses() {
    let f = formula(&[&[1]]);
    assert_eq!(check_sat(&f, &lits(&[1]), 2, 2), Err(SatError::WrongNumberOfClauses));
}

#[test]
fn checker_rejects_proof_var_out_of_range() {
    let f = formula(&[&[1]]);
    assert_eq!(check_sat(&f, &lits(&[1, 3]), 2, 1), Err(SatError::ProofVarOutOfRange));
}

#[test]
fn checker_range_error_comes_before_inconsistency() {
    let f = formula(&[&[1]]);
    assert_eq!(check_sat(&f, &lits(&[1, -5, -1]), 2, 1), Err(SatError::ProofVarOutOfRange));
    assert_eq!(check_sat(&f, &lits(&[1, -1, -5]), 2, 1), Err(SatError::Inconsistent));
}

#[test]
fn checker_rejects_formula_var_out_of_range() {
    let f = formula(&[&[1, 3]]);
    assert_eq!(check_sat(&f, &lits(&[1]), 2, 1), Err(SatError::FormulaVarOutOfRange));
}

#[test]
fn checker_rejects_falsified_clause() {
    let f = formula(&[&[1], &[-1, 2]]);
    assert_eq!(check_sat(&f, &lits(&[1, -2]), 2, 2), Err(SatError::Incorrect));
}

#[test]
fn checker_unassigned_variable_does_not_satisfy() {
    let f = formula(&[&[2]]);
    assert_eq!(check_sat(&f, &lits(&[1]), 2, 1), Err(SatError::Incorrect));
}

#[test]
fn checker_accepts_repeated_literal() {
    let f = formula(&[&[1]]);
    assert_eq!(check_sat(&f, &lits(&[1, 1]), 1, 1), Ok(()));
}

#[test]
fn checker_empty_clause_is_incorrect() {
    let f = formula(&[&[]]);
    assert_eq!(check_sat(&f, &lits(&[]), 1, 1), Err(SatError::Incorrect));
}

#[test]
fn checker_variable_of_min_literal() {
    assert_eq!(Lit::from_dimacs_unchecked(i32::MIN).variable(), 0x8000_0000);
    assert_eq!(Lit::from_dimacs_unchecked(-7).variable(), 7);
    assert!(!Lit::from_dimacs_unchecked(-7).polarity());
    assert!(Lit::from_dimacs_unchecked(7).polarity());
}

#[test]
fn uncounted_checker_verdicts() {
    let f = formula(&[&[1, 2], &[-1]]);
    assert_eq!(check_uncounted(&f, &lits(&[-1, 2]), 2), SatResult::Verified);
    assert_eq!(check_uncounted(&f, &lits(&[-1, 1]), 2), SatResult::Inconsistent);
    assert_eq!(check_uncounted(&f, &lits(&[-1, 3]), 2), SatResult::VarOutOfRange);
    assert_eq!(check_uncounted(&formula(&[&[4]]), &lits(&[1]), 2), SatResult::VarOutOfRange);
    assert_eq!(check_uncounted(&f, &lits(&[1, 2]), 2), SatResult::Incorrect);
}
