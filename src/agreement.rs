use vstd::prelude::*;
use crate::check_sat::{self, check_spec, lemma_check_complete, lits_in_range, consistent, clause_satisfied, proof_sets};
use crate::solver::{Solver, model_dimacs, total};
use crate::types::{Lit, MAX_VAR, clause_in_range, is_model, sat_clause, sat_lit};

verus! {

/// The signed form of a packed literal.
pub open spec fn to_signed(l: Lit) -> check_sat::Lit {
    check_sat::Lit { lit: l.dimacs_spec() as i32 }
}

/// A formula with its literals in signed form.
pub open spec fn formula_to_signed(f: Seq<Seq<Lit>>) -> Seq<Seq<check_sat::Lit>> {
    f.map_values(|c: Seq<Lit>| c.map_values(|l: Lit| to_signed(l)))
}

/// DIMACS integers read as a proof.
pub open spec fn proof_of(d: Seq<i32>) -> Seq<check_sat::Lit> {
    d.map_values(|x: i32| check_sat::Lit { lit: x })
}

/// A complete assignment that satisfies a formula over `1..=n`, written as
/// DIMACS literals, is accepted by the checker together with that formula.
pub proof fn lemma_model_verifies(f: Seq<Seq<Lit>>, n: nat, values: Seq<Option<bool>>)
    requires
        n <= MAX_VAR,
        values.len() == n + 1,
        forall|v: int| 1 <= v <= n ==> (#[trigger] values[v]) is Some,
        forall|i: int| 0 <= i < f.len() ==> clause_in_range(#[trigger] f[i], n),
        is_model(total(values), n, f),
    ensures
        check_spec(formula_to_signed(f), proof_of(model_dimacs(values, n)), n, f.len()) is Ok,
{
    let g = formula_to_signed(f);
    let p = proof_of(model_dimacs(values, n));
    let m = total(values);
    assert forall|k: int| 0 <= k < p.len() implies (#[trigger] p[k]).l_variable() == k + 1 && p[k].l_polarity() == (values[k + 1] == Some(true)) by {}
    assert forall|i: int| 0 <= i < g.len() implies lits_in_range(#[trigger] g[i], n) && clause_satisfied(p, g[i]) by {
        let c = f[i];
        assert(clause_in_range(c, n));
        assert(g[i] == c.map_values(|l: Lit| to_signed(l)));
        assert forall|j: int| 0 <= j < g[i].len() implies (#[trigger] g[i][j]).l_variable() == c[j].var_spec() && g[i][j].l_polarity() == c[j].pol_spec() by {
            assert(1 <= c[j].var_spec() <= n);
        }
        assert(sat_clause(m, c));
        let j = choose|j: int| 0 <= j < c.len() && sat_lit(m, #[trigger] c[j]);
        let v = c[j].var_spec() as int;
        assert(1 <= v <= n);
        assert(p[v - 1].l_variable() == v);
        assert(proof_sets(p, g[i][j].l_variable(), g[i][j].l_polarity()));
    }
    assert forall|a: int, b: int| 0 <= a < p.len() && 0 <= b < p.len() implies !(#[trigger] p[a]).conflicts_with(#[trigger] p[b]) by {}
    lemma_check_complete(g, p, n, f.len());
}

/// What `solve` promises on `Sat`, given to the checker with the solver's
/// formula and its `model()`, verifies.
pub proof fn lemma_solver_agrees_with_checker(s: Solver)
    requires
        s.wf(),
        s.values().len() == s.num_vars_spec() + 1,
        forall|v: int| 1 <= v <= s.num_vars_spec() ==> (#[trigger] s.values()[v]) is Some,
        is_model(total(s.values()), s.num_vars_spec(), s.formula()),
    ensures
        check_spec(
            formula_to_signed(s.formula()),
            proof_of(model_dimacs(s.values(), s.num_vars_spec())),
            s.num_vars_spec(),
            s.formula().len(),
        ) is Ok,
{
    s.lemma_formula_in_range();
    lemma_model_verifies(s.formula(), s.num_vars_spec(), s.values());
}

} // verus!
