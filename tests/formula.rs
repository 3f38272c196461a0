use meowc::formula::{CheckRes, Clause, Formula, Lit, UncheckedAsn};

fn clause(lits: &[(u32, bool)]) -> Clause {
    Clause(lits.iter().map(|&(v, b)| Lit::new(v, b)).collect())
}

fn asn(lits: &[(u32, bool)]) -> UncheckedAsn {
    UncheckedAsn(lits.iter().map(|&(v, b)| Lit::new(v, b)).collect())
}

fn sample() -> Formula {
    Formula::new(vec![clause(&[(0, true), (1, true)]), clause(&[(0, false)])], 2).unwrap()
}

#[test]
fn formula_verified() {
    assert_eq!(sample().check_sat(&asn(&[(0, false), (1, true)])), CheckRes::Verified);
}

#[test]
fn formula_incomplete() {
    assert_eq!(sample().check_sat(&asn(&[(0, false)])), CheckRes::Incomplete);
}

#[test]
fn formula_inconsistent() {
    assert_eq!(sample().check_sat(&asn(&[(0, false), (0, true)])), CheckRes::Inconsistent);
}

#[test]
fn formula_vars_out_of_range() {
    assert_eq!(sample().check_sat(&asn(&[(0, false), (2, true)])), CheckRes::VarsOutOfRange);
}

#[test]
fn formula_rejects_clause_out_of_range() {
    assert!(Formula::new(vec![clause(&[(3, true)])], 2).is_none());
}
