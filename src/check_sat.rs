use vstd::prelude::*;

verus! {

/// Why a candidate assignment fails to verify against a formula.
#[derive(Clone, Copy, Debug, PartialEq, Eq, Structural)]
pub enum SatError {
    Inconsistent,
    ProofVarOutOfRange,
    FormulaVarOutOfRange,
    WrongNumberOfClauses,
    Incorrect,
}

pub type Var = u32;

pub type RawLit = i32;

/// A literal in signed DIMACS form: the variable is `|lit|`, the polarity is
/// `lit >= 0`.
#[derive(Clone, Copy, Debug, PartialEq, Eq, Structural)]
pub struct Lit {
    pub lit: RawLit,
}

pub type Clause = Vec<Lit>;

impl Lit {
    pub open spec fn l_variable(self) -> nat {
        if self.lit < 0 {
            (-self.lit) as nat
        } else {
            self.lit as nat
        }
    }

    pub open spec fn l_polarity(self) -> bool {
        self.lit >= 0
    }

    pub open spec fn l_in_range(self, max_var: nat) -> bool {
        self.l_variable() <= max_var
    }

    pub open spec fn conflicts_with(self, other: Lit) -> bool {
        self.l_variable() == other.l_variable() && self.l_polarity() != other.l_polarity()
    }

    pub fn variable(&self) -> (r: Var)
        ensures
            r == self.l_variable(),
    {
        if self.lit == RawLit::MIN {
            0x8000_0000
        } else if self.lit < 0 {
            (-self.lit) as Var
        } else {
            self.lit as Var
        }
    }

    pub fn polarity(&self) -> (r: bool)
        ensures
            r == self.l_polarity(),
    {
        self.lit >= 0
    }

    fn var_pol(&self) -> (r: (Var, bool))
        ensures
            r.0 == self.l_variable(),
            r.1 == self.l_polarity(),
    {
        (self.variable(), self.polarity())
    }

    pub fn from_dimacs_unchecked(l: RawLit) -> (r: Lit)
        ensures
            r.lit == l,
    {
        Lit { lit: l }
    }

    fn in_range(&self, max_var: Var) -> (r: bool)
        ensures
            r == self.l_in_range(max_var as nat),
    {
        self.variable() <= max_var
    }
}

/// The proof gives variable `v` the value `b`.
pub open spec fn proof_sets(proof: Seq<Lit>, v: nat, b: bool) -> bool {
    exists|i: int|
        0 <= i < proof.len() && (#[trigger] proof[i]).l_variable() == v && proof[i].l_polarity()
            == b
}

/// No two literals of the proof give one variable both values.
pub open spec fn consistent(proof: Seq<Lit>) -> bool {
    forall|i: int, j: int|
        0 <= i < proof.len() && 0 <= j < proof.len() ==> !(#[trigger] proof[i]).conflicts_with(
            #[trigger] proof[j],
        )
}

pub open spec fn lits_in_range(lits: Seq<Lit>, max_var: nat) -> bool {
    forall|i: int| 0 <= i < lits.len() ==> (#[trigger] lits[i]).l_in_range(max_var)
}

/// Some literal of the clause is set true by the proof.
pub open spec fn clause_satisfied(proof: Seq<Lit>, clause: Seq<Lit>) -> bool {
    exists|j: int|
        0 <= j < clause.len() && proof_sets(proof, (#[trigger] clause[j]).l_variable(), clause[j].l_polarity())
}

/// The first error met while reading the proof left to right, if any.
pub open spec fn proof_error(proof: Seq<Lit>, max_var: nat) -> Option<SatError>
    decreases proof.len(),
{
    if proof.len() == 0 {
        None
    } else {
        let prev = proof.drop_last();
        match proof_error(prev, max_var) {
            Some(e) => Some(e),
            None => {
                let l = proof.last();
                if !l.l_in_range(max_var) {
                    Some(SatError::ProofVarOutOfRange)
                } else if exists|j: int| 0 <= j < prev.len() && (#[trigger] prev[j]).conflicts_with(l) {
                    Some(SatError::Inconsistent)
                } else {
                    None
                }
            },
        }
    }
}

/// The error that one clause raises, if any.
pub open spec fn clause_error(proof: Seq<Lit>, clause: Seq<Lit>, max_var: nat) -> Option<SatError> {
    if !lits_in_range(clause, max_var) {
        Some(SatError::FormulaVarOutOfRange)
    } else if !clause_satisfied(proof, clause) {
        Some(SatError::Incorrect)
    } else {
        None
    }
}

/// The first error met while reading the clauses left to right, if any.
pub open spec fn formula_error(
    proof: Seq<Lit>,
    clauses: Seq<Seq<Lit>>,
    max_var: nat,
    num_clauses: nat,
) -> Option<SatError>
    decreases clauses.len(),
{
    if clauses.len() == 0 {
        None
    } else {
        match formula_error(proof, clauses.drop_last(), max_var, num_clauses) {
            Some(e) => Some(e),
            None => match clause_error(proof, clauses.last(), max_var) {
                Some(e) => Some(e),
                None => if clauses.len() > num_clauses {
                    Some(SatError::WrongNumberOfClauses)
                } else {
                    None
                },
            },
        }
    }
}

/// The verdict on a formula and a proof.
pub open spec fn check_spec(
    clauses: Seq<Seq<Lit>>,
    proof: Seq<Lit>,
    max_var: nat,
    num_clauses: nat,
) -> Result<(), SatError> {
    match proof_error(proof, max_var) {
        Some(e) => Err(e),
        None => match formula_error(proof, clauses, max_var, num_clauses) {
            Some(e) => Err(e),
            None => if clauses.len() == num_clauses {
                Ok(())
            } else {
                Err(SatError::WrongNumberOfClauses)
            },
        },
    }
}

pub open spec fn clauses_view(clauses: Seq<Clause>) -> Seq<Seq<Lit>> {
    clauses.map_values(|c: Clause| c@)
}

/// `state` holds exactly the values that the proof sets.
spec fn state_maps_from(state: Seq<Option<bool>>, proof: Seq<Lit>) -> bool {
    &&& forall|v: int, b: bool|
        0 <= v < state.len() && #[trigger] proof_sets(proof, v as nat, b) ==> state[v] == Some(b)
    &&& forall|v: int| 0 <= v < state.len() && (#[trigger] state[v]) is Some ==> proof_sets(proof, v as nat, state[v]->0)
}

struct Assignment {
    state: Vec<Option<bool>>,
}

impl Assignment {
    spec fn maps_from(self, proof: Seq<Lit>) -> bool {
        state_maps_from(self.state@, proof)
    }

    fn from_unchecked_lits(proof: &Vec<Lit>, max_var: Var) -> (r: Result<Assignment, SatError>)
        requires
            max_var < usize::MAX,
        ensures
            match r {
                Ok(a) => {
                    &&& proof_error(proof@, max_var as nat) is None
                    &&& a.state@.len() == max_var + 1
                    &&& a.maps_from(proof@)
                },
                Err(e) => proof_error(proof@, max_var as nat) == Some(e),
            },
    {
        let mut state: Vec<Option<bool>> = Vec::new();
        let len = max_var as usize + 1;
        while state.len() < len
            invariant
                len == max_var + 1,
                state@.len() <= len,
                forall|v: int| 0 <= v < state@.len() ==> #[trigger] state@[v] is None,
            decreases len - state@.len(),
        {
            state.push(None);
        }
        let mut k: usize = 0;
        while k < proof.len()
            invariant
                k <= proof@.len(),
                state@.len() == max_var + 1,
                proof_error(proof@.subrange(0, k as int), max_var as nat) is None,
                state_maps_from(state@, proof@.subrange(0, k as int)),
            decreases proof@.len() - k,
        {
            let lit = proof[k];
            let ghost prev = proof@.subrange(0, k as int);
            let ghost next = proof@.subrange(0, k + 1);
            assert(next.drop_last() =~= prev);
            assert(next.last() == lit);
            if !lit.in_range(max_var) {
                assert(proof_error(next, max_var as nat) == Some(SatError::ProofVarOutOfRange));
                proof {
                    lemma_proof_error_prefix(proof@, max_var as nat, k + 1);
                }
                return Err(SatError::ProofVarOutOfRange);
            }
            let (variable, polarity) = lit.var_pol();
            if let Some(assigned) = state[variable as usize] {
                if assigned != polarity {
                    assert(proof_sets(prev, variable as nat, assigned));
                    let ghost i = choose|i: int|
                        0 <= i < prev.len() && (#[trigger] prev[i]).l_variable() == variable
                            && prev[i].l_polarity() == assigned;
                    assert(prev[i].conflicts_with(lit));
                    assert(proof_error(next, max_var as nat) == Some(SatError::Inconsistent));
                    proof {
                        lemma_proof_error_prefix(proof@, max_var as nat, k + 1);
                    }
                    return Err(SatError::Inconsistent);
                }
            }
            proof {
                assert forall|j: int| 0 <= j < prev.len() implies !(#[trigger] prev[j]).conflicts_with(lit) by {
                    if prev[j].conflicts_with(lit) {
                        assert(proof_sets(prev, variable as nat, prev[j].l_polarity()));
                    }
                }
            }
            state.set(variable as usize, Some(polarity));
            proof {
                assert forall|v: int, b: bool|
                    0 <= v < state@.len() && #[trigger] proof_sets(next, v as nat, b) implies state@[v] == Some(b) by {
                    let i = choose|i: int|
                        0 <= i < next.len() && (#[trigger] next[i]).l_variable() == v
                            && next[i].l_polarity() == b;
                    if i < k {
                        assert(prev[i] == next[i]);
                        assert(proof_sets(prev, v as nat, b));
                    }
                }
                assert forall|v: int| 0 <= v < state@.len() && (#[trigger] state@[v]) is Some implies proof_sets(next, v as nat, state@[v]->0) by {
                    if v == variable {
                        assert(next[k as int] == lit);
                    } else {
                        let b = state@[v]->0;
                        let i = choose|i: int|
                            0 <= i < prev.len() && (#[trigger] prev[i]).l_variable() == v
                                && prev[i].l_polarity() == b;
                        assert(next[i] == prev[i]);
                    }
                }
            }
            k = k + 1;
        }
        assert(proof@.subrange(0, proof@.len() as int) =~= proof@);
        Ok(Assignment { state })
    }

    fn satisfies_lit(&self, lit: Lit) -> (r: bool)
        requires
            lit.l_variable() < self.state@.len(),
        ensures
            r == (self.state@[lit.l_variable() as int] == Some(lit.l_polarity())),
    {
        match self.state[lit.variable() as usize] {
            Some(assigned) => assigned == lit.polarity(),
            None => false,
        }
    }
}

/// Once an error is met in a prefix of the proof, it is the verdict on the
/// whole proof.
proof fn lemma_proof_error_prefix(proof: Seq<Lit>, max_var: nat, k: int)
    requires
        0 <= k <= proof.len(),
        proof_error(proof.subrange(0, k), max_var) is Some,
    ensures
        proof_error(proof, max_var) == proof_error(proof.subrange(0, k), max_var),
    decreases proof.len() - k,
{
    if k < proof.len() {
        let next = proof.subrange(0, k + 1);
        assert(next.drop_last() =~= proof.subrange(0, k));
        lemma_proof_error_prefix(proof, max_var, k + 1);
    } else {
        assert(proof.subrange(0, k) =~= proof);
    }
}


/// Once an error is met in a prefix of the clauses, it is the verdict on all
/// of them.
proof fn lemma_formula_error_prefix(
    proof: Seq<Lit>,
    clauses: Seq<Seq<Lit>>,
    max_var: nat,
    num_clauses: nat,
    k: int,
)
    requires
        0 <= k <= clauses.len(),
        formula_error(proof, clauses.subrange(0, k), max_var, num_clauses) is Some,
    ensures
        formula_error(proof, clauses, max_var, num_clauses) == formula_error(
            proof,
            clauses.subrange(0, k),
            max_var,
            num_clauses,
        ),
    decreases clauses.len() - k,
{
    if k < clauses.len() {
        assert(clauses.subrange(0, k + 1).drop_last() =~= clauses.subrange(0, k));
        lemma_formula_error_prefix(proof, clauses, max_var, num_clauses, k + 1);
    } else {
        assert(clauses.subrange(0, k) =~= clauses);
    }
}

/// Checks that `proof`, read as a set of literals, is a consistent assignment
/// over variables `1..=max_var` that satisfies every clause of `clauses`, and
/// that there are exactly `num_clauses` clauses.
#[verifier::loop_isolation(false)]
pub fn check_sat(clauses: &Vec<Clause>, proof: &Vec<Lit>, max_var: Var, num_clauses: usize) -> (r:
    Result<(), SatError>)
    requires
        max_var < usize::MAX,
    ensures
        r == check_spec(clauses_view(clauses@), proof@, max_var as nat, num_clauses as nat),
{
    let assignment = match Assignment::from_unchecked_lits(proof, max_var) {
        Err(e) => return Err(e),
        Ok(a) => a,
    };
    let ghost cs = clauses_view(clauses@);
    let ghost n = max_var as nat;
    let ghost m = num_clauses as nat;
    let mut clauses_read: usize = 0;
    while clauses_read < clauses.len()
        invariant
            cs == clauses_view(clauses@),
            n == max_var,
            m == num_clauses,
            clauses_read <= clauses@.len(),
            clauses_read <= num_clauses,
            assignment.state@.len() == max_var + 1,
            assignment.maps_from(proof@),
            formula_error(proof@, cs.subrange(0, clauses_read as int), n, m) is None,
        decreases clauses@.len() - clauses_read,
    {
        let clause = &clauses[clauses_read];
        let ghost prev = cs.subrange(0, clauses_read as int);
        let ghost next = cs.subrange(0, clauses_read + 1);
        assert(next.drop_last() =~= prev);
        assert(next.last() == clause@);
        let mut clause_sat = false;
        let mut j: usize = 0;
        while j < clause.len()
            invariant
                j <= clause@.len(),
                assignment.state@.len() == max_var + 1,
                assignment.maps_from(proof@),
                lits_in_range(clause@.subrange(0, j as int), max_var as nat),
                clause_sat == exists|i: int|
                    0 <= i < j && proof_sets(proof@, (#[trigger] clause@[i]).l_variable(), clause@[i].l_polarity()),
            decreases clause@.len() - j,
        {
            let lit = clause[j];
            if !lit.in_range(max_var) {
                proof {
                    assert(lit == clause@[j as int]);
                    assert(!clause@[j as int].l_in_range(n));
                    assert(!lits_in_range(clause@, n));
                    assert(clause_error(proof@, next.last(), n) == Some(SatError::FormulaVarOutOfRange));
                    lemma_formula_error_prefix(proof@, cs, n, m, clauses_read + 1);
                    assert(cs =~= clauses_view(clauses@));
                }
                return Err(SatError::FormulaVarOutOfRange);
            }
            let sat_here = assignment.satisfies_lit(lit);
            proof {
                let v = lit.l_variable();
                if sat_here {
                    assert(proof_sets(proof@, v, lit.l_polarity()));
                } else if proof_sets(proof@, v, lit.l_polarity()) {
                    assert(assignment.state@[v as int] == Some(lit.l_polarity()));
                }
                assert(lits_in_range(clause@.subrange(0, j + 1), n)) by {
                    assert forall|i: int| 0 <= i < j + 1 implies (#[trigger] clause@.subrange(0, j + 1)[i]).l_in_range(n) by {
                        if i < j {
                            assert(clause@.subrange(0, j as int)[i] == clause@[i]);
                        }
                    }
                }
            }
            if !clause_sat && sat_here {
                clause_sat = true;
            }
            j = j + 1;
        }
        proof {
            assert(clause@.subrange(0, clause@.len() as int) =~= clause@);
            assert(clause_sat == clause_satisfied(proof@, clause@));
        }
        if !clause_sat {
            proof {
                lemma_formula_error_prefix(proof@, cs, n, m, clauses_read + 1);
            }
            return Err(SatError::Incorrect);
        }
        if clauses_read >= num_clauses {
            proof {
                lemma_formula_error_prefix(proof@, cs, n, m, clauses_read + 1);
            }
            return Err(SatError::WrongNumberOfClauses);
        }
        clauses_read = clauses_read + 1;
    }
    assert(cs.subrange(0, cs.len() as int) =~= cs);
    if clauses_read != num_clauses {
        return Err(SatError::WrongNumberOfClauses);
    }
    Ok(())
}


proof fn lemma_proof_error_none(proof: Seq<Lit>, max_var: nat)
    ensures
        proof_error(proof, max_var) is None <==> (lits_in_range(proof, max_var) && consistent(proof)),
    decreases proof.len(),
{
    if proof.len() > 0 {
        let prev = proof.drop_last();
        let l = proof.last();
        let k = prev.len() as int;
        lemma_proof_error_none(prev, max_var);
        if lits_in_range(proof, max_var) && consistent(proof) {
            assert forall|i: int| 0 <= i < prev.len() implies (#[trigger] prev[i]).l_in_range(max_var) by {
                assert(prev[i] == proof[i]);
            }
            assert forall|i: int, j: int| 0 <= i < prev.len() && 0 <= j < prev.len() implies !(
            #[trigger] prev[i]).conflicts_with(#[trigger] prev[j]) by {
                assert(prev[i] == proof[i] && prev[j] == proof[j]);
            }
            assert(proof[k] == l);
            assert forall|j: int| 0 <= j < prev.len() implies !(#[trigger] prev[j]).conflicts_with(l) by {
                assert(prev[j] == proof[j]);
                assert(!proof[j].conflicts_with(proof[k]));
            }
        }
        if proof_error(proof, max_var) is None {
            assert(forall|j: int| 0 <= j < prev.len() ==> !(#[trigger] prev[j]).conflicts_with(l));
            assert forall|i: int| 0 <= i < proof.len() implies (#[trigger] proof[i]).l_in_range(max_var) by {
                if i < k {
                    assert(prev[i] == proof[i]);
                }
            }
            assert forall|i: int, j: int| 0 <= i < proof.len() && 0 <= j < proof.len() implies !(
            #[trigger] proof[i]).conflicts_with(#[trigger] proof[j]) by {
                if i < k && j < k {
                    assert(prev[i] == proof[i] && prev[j] == proof[j]);
                } else if i < k {
                    assert(prev[i] == proof[i]);
                } else if j < k {
                    assert(prev[j] == proof[j]);
                }
            }
        }
    }
}

pub open spec fn clause_ok(proof: Seq<Lit>, clause: Seq<Lit>, max_var: nat) -> bool {
    lits_in_range(clause, max_var) && clause_satisfied(proof, clause)
}

proof fn lemma_formula_error_none(
    proof: Seq<Lit>,
    clauses: Seq<Seq<Lit>>,
    max_var: nat,
    num_clauses: nat,
)
    ensures
        formula_error(proof, clauses, max_var, num_clauses) is None <==> (clauses.len()
            <= num_clauses && forall|i: int|
            0 <= i < clauses.len() ==> clause_ok(proof, #[trigger] clauses[i], max_var)),
    decreases clauses.len(),
{
    if clauses.len() > 0 {
        let prev = clauses.drop_last();
        lemma_formula_error_none(proof, prev, max_var, num_clauses);
        assert(forall|i: int| 0 <= i < prev.len() ==> prev[i] == clauses[i]);
        if formula_error(proof, clauses, max_var, num_clauses) is None {
            assert forall|i: int| 0 <= i < clauses.len() implies clause_ok(proof, #[trigger] clauses[i], max_var) by {
                if i < prev.len() {
                    assert(clause_ok(proof, prev[i], max_var));
                }
            }
        }
        if clauses.len() <= num_clauses && forall|i: int|
            0 <= i < clauses.len() ==> clause_ok(proof, #[trigger] clauses[i], max_var) {
            assert(clause_ok(proof, clauses[clauses.len() - 1], max_var));
        }
    }
}

/// `check_sat` succeeds exactly when the formula has the announced number of
/// clauses, every literal of the formula and the proof names a variable in
/// range, the proof is consistent, and the assignment that it induces
/// satisfies every clause.
pub proof fn lemma_check_complete(
    clauses: Seq<Seq<Lit>>,
    proof: Seq<Lit>,
    max_var: nat,
    num_clauses: nat,
)
    ensures
        check_spec(clauses, proof, max_var, num_clauses) is Ok <==> {
            &&& clauses.len() == num_clauses
            &&& forall|i: int| 0 <= i < clauses.len() ==> lits_in_range(#[trigger] clauses[i], max_var)
            &&& lits_in_range(proof, max_var)
            &&& consistent(proof)
            &&& forall|i: int| 0 <= i < clauses.len() ==> clause_satisfied(proof, #[trigger] clauses[i])
        },
{
    lemma_proof_error_none(proof, max_var);
    lemma_formula_error_none(proof, clauses, max_var, num_clauses);
    if clauses.len() == num_clauses && (forall|i: int| 0 <= i < clauses.len() ==> lits_in_range(#[trigger] clauses[i], max_var))
        && (forall|i: int| 0 <= i < clauses.len() ==> clause_satisfied(proof, #[trigger] clauses[i])) {
        assert(forall|i: int| 0 <= i < clauses.len() ==> clause_ok(proof, #[trigger] clauses[i], max_var));
    }
}

} // verus!
