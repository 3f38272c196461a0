use vstd::prelude::*;
use crate::check_sat::{self, Clause, Lit, SatError, Var, check_spec, clauses_view, formula_error, proof_error};

verus! {

/// Verdict of the checker that takes the clause count from the clauses
/// themselves.
#[derive(Clone, Copy, Debug, PartialEq, Eq, Structural)]
pub enum SatResult {
    Inconsistent,
    VarOutOfRange,
    Incorrect,
    Verified,
}

/// The verdict for a result of the counting checker.
pub open spec fn verdict(r: Result<(), SatError>) -> SatResult {
    match r {
        Ok(()) => SatResult::Verified,
        Err(SatError::Inconsistent) => SatResult::Inconsistent,
        Err(SatError::ProofVarOutOfRange) => SatResult::VarOutOfRange,
        Err(SatError::FormulaVarOutOfRange) => SatResult::VarOutOfRange,
        Err(SatError::WrongNumberOfClauses) => SatResult::Incorrect,
        Err(SatError::Incorrect) => SatResult::Incorrect,
    }
}

/// With no more clauses than announced, the clause count never fails.
proof fn lemma_count_never_fails(proof: Seq<Lit>, clauses: Seq<Seq<Lit>>, max_var: nat, num_clauses: nat)
    requires
        clauses.len() <= num_clauses,
    ensures
        formula_error(proof, clauses, max_var, num_clauses) != Some(SatError::WrongNumberOfClauses),
    decreases clauses.len(),
{
    if clauses.len() > 0 {
        lemma_count_never_fails(proof, clauses.drop_last(), max_var, num_clauses);
    }
}

/// Reading the proof fails only on a range or consistency error.
proof fn lemma_proof_error_kinds(proof: Seq<Lit>, max_var: nat)
    ensures
        proof_error(proof, max_var) != Some(SatError::WrongNumberOfClauses),
    decreases proof.len(),
{
    if proof.len() > 0 {
        lemma_proof_error_kinds(proof.drop_last(), max_var);
    }
}

/// Checks that `proof` is a consistent assignment over `1..=max_var` that
/// satisfies every clause, with every variable of the clauses in range.
pub fn check_sat(clauses: &Vec<Clause>, proof: &Vec<Lit>, max_var: Var) -> (r: SatResult)
    requires
        max_var < usize::MAX,
    ensures
        r == verdict(check_spec(clauses_view(clauses@), proof@, max_var as nat, clauses@.len())),
        check_spec(clauses_view(clauses@), proof@, max_var as nat, clauses@.len()) != Err::<(), SatError>(SatError::WrongNumberOfClauses),
{
    proof {
        assert(clauses_view(clauses@).len() == clauses@.len());
        lemma_proof_error_kinds(proof@, max_var as nat);
        lemma_count_never_fails(proof@, clauses_view(clauses@), max_var as nat, clauses@.len());
    }
    match check_sat::check_sat(clauses, proof, max_var, clauses.len()) {
        Ok(()) => SatResult::Verified,
        Err(SatError::Inconsistent) => SatResult::Inconsistent,
        Err(SatError::ProofVarOutOfRange) => SatResult::VarOutOfRange,
        Err(SatError::FormulaVarOutOfRange) => SatResult::VarOutOfRange,
        Err(SatError::WrongNumberOfClauses) => SatResult::Incorrect,
        Err(SatError::Incorrect) => SatResult::Incorrect,
    }
}

} // verus!
