use meowc::check_sat::{check_sat, Lit as SignedLit, SatError};
use meowc::luby::Luby;
use meowc::solver::Solver;
use meowc::types::{Lit, SatResult};

fn build(num_vars: u32, clauses: &[&[i32]]) -> Solver {
    let mut solver = Solver::new(num_vars);
    for clause in clauses {
        let lits: Vec<Lit> = clause.iter().map(|&n| Lit::from_dimacs(n)).collect();
        solver.add_clause(&lits);
    }
    solver
}

fn check_model(clauses: &[&[i32]], num_vars: u32, model: &[i32]) -> Result<(), SatError> {
    let formula: Vec<Vec<SignedLit>> = clauses
        .iter()
        .map(|c| c.iter().map(|&n| SignedLit::from_dimacs_unchecked(n)).collect())
        .collect();
    let proof: Vec<SignedLit> = model.iter().map(|&n| SignedLit::from_dimacs_unchecked(n)).collect();
    check_sat(&formula, &proof, num_vars, clauses.len())
}

#[test]
fn trivial_sat() {
    let clauses: &[&[i32]] = &[&[1]];
    let mut solver = build(1, clauses);
    assert_eq!(solver.solve(), SatResult::Sat);
    assert_eq!(solver.model(), vec![1]);
    assert!(check_model(clauses, 1, &solver.model()).is_ok());
    assert!(check_model(clauses, 1, &[1]).is_ok());
}

#[test]
fn trivial_unsat() {
    let mut solver = build(1, &[&[1], &[-1]]);
    assert_eq!(solver.solve(), SatResult::Unsat);
}

#[test]
fn unit_propagation_chain() {
    let mut solver = build(3, &[&[1], &[-1, 2], &[-2, 3]]);
    assert_eq!(solver.solve(), SatResult::Sat);
    assert_eq!(solver.model(), vec![1, 2, 3]);
    let stats = solver.stats();
    assert_eq!(stats.conflicts, 0);
    assert_eq!(stats.propagations, 3);
}

/// Pigeon `p` in hole `h`, for 3 pigeons and 2 holes.
fn php(p: i32, h: i32) -> i32 {
    (p - 1) * 2 + h
}

#[test]
fn pigeonhole_needs_learning() {
    let mut clauses: Vec<Vec<i32>> = Vec::new();
    for p in 1..=3 {
        clauses.push(vec![php(p, 1), php(p, 2)]);
    }
    for h in 1..=2 {
        for p in 1..=3 {
            for q in (p + 1)..=3 {
                clauses.push(vec![-php(p, h), -php(q, h)]);
            }
        }
    }
    assert_eq!(clauses.len(), 9);
    let refs: Vec<&[i32]> = clauses.iter().map(|c| c.as_slice()).collect();
    let mut solver = build(6, &refs);
    assert_eq!(solver.solve(), SatResult::Unsat);
    assert!(solver.stats().conflicts >= 1);
    assert!(solver.num_clauses() > 9);
}

#[test]
fn empty_formula_is_sat() {
    let mut solver = Solver::new(0);
    assert_eq!(solver.solve(), SatResult::Sat);
    assert_eq!(solver.model(), Vec::<i32>::new());
}

#[test]
fn empty_clause_is_unsat() {
    let mut solver = build(2, &[&[1, 2], &[]]);
    assert_eq!(solver.solve(), SatResult::Unsat);
}

#[test]
fn unconstrained_variables_are_assigned() {
    let clauses: &[&[i32]] = &[&[2]];
    let mut solver = build(3, clauses);
    assert_eq!(solver.solve(), SatResult::Sat);
    let model = solver.model();
    assert_eq!(model.len(), 3);
    assert_eq!(model[1], 2);
    assert!(check_model(clauses, 3, &model).is_ok());
}

#[test]
fn duplicate_literals_are_tolerated() {
    let clauses: &[&[i32]] = &[&[1, 1, 2], &[-1, -1], &[-2, 3, 3]];
    let mut solver = build(3, clauses);
    assert_eq!(solver.solve(), SatResult::Sat);
    assert!(check_model(clauses, 3, &solver.model()).is_ok());
}

#[test]
fn solver_agrees_with_checker() {
    let formulas: Vec<(u32, Vec<Vec<i32>>)> = vec![
        (3, vec![vec![1, 2], vec![-1, 3], vec![-2, -3], vec![2, 3]]),
        (4, vec![vec![1, -2, 3], vec![-1, 4], vec![2, -4], vec![-3, -4], vec![1, 2, 3, 4]]),
        (5, vec![vec![-1, -2], vec![-2, -3], vec![-3, -4], vec![-4, -5], vec![1, 3, 5], vec![2, 4]]),
    ];
    for (n, clauses) in formulas {
        let refs: Vec<&[i32]> = clauses.iter().map(|c| c.as_slice()).collect();
        let mut solver = build(n, &refs);
        assert_eq!(solver.solve(), SatResult::Sat);
        assert!(check_model(&refs, n, &solver.model()).is_ok());
    }
}

#[test]
fn unsat_formula_with_backjumping() {
    // every assignment of three variables is excluded
    let mut clauses: Vec<Vec<i32>> = Vec::new();
    for mask in 0..8 {
        let c: Vec<i32> = (1..=3).map(|v| if mask & (1 << (v - 1)) != 0 { v } else { -v }).collect();
        clauses.push(c);
    }
    let refs: Vec<&[i32]> = clauses.iter().map(|c| c.as_slice()).collect();
    let mut solver = build(3, &refs);
    assert_eq!(solver.solve(), SatResult::Unsat);
}

#[test]
fn lit_round_trip() {
    for n in [1, -1, 2, -2, 17, -42, 1 << 30, -(1 << 30), i32::MAX, -i32::MAX] {
        assert_eq!(Lit::from_dimacs(n).to_dimacs(), n);
    }
}

#[test]
fn lit_encoding() {
    assert_eq!(Lit::from_dimacs(3).code(), 7);
    assert_eq!(Lit::from_dimacs(-3).code(), 6);
    assert_eq!(Lit::from_dimacs(-3).var(), 3);
    assert!(Lit::from_dimacs(3).as_bool());
    assert!(!Lit::from_dimacs(-3).as_bool());
    assert_eq!(Lit::from_var_pol(5, true).to_dimacs(), 5);
    assert_eq!(Lit::from_var_pol(5, false).to_dimacs(), -5);
}

#[test]
fn negation_is_an_involution() {
    for n in [1, -1, 9, -9, i32::MAX, -i32::MAX] {
        let l = Lit::from_dimacs(n);
        assert_eq!(l.negate().to_dimacs(), -n);
        assert_eq!(l.negate().negate(), l);
    }
}

#[test]
fn luby_prefix() {
    let mut luby = Luby::new();
    let got: Vec<u64> = (0..15).map(|_| luby.next()).collect();
    assert_eq!(got, vec![1, 1, 2, 1, 1, 2, 4, 1, 1, 2, 1, 1, 2, 4, 8]);
}

#[test]
fn luby_default_matches_new() {
    let mut a = Luby::default();
    let mut b = Luby::new();
    for _ in 0..40 {
        assert_eq!(a.next(), b.next());
    }
}

#[test]
fn sat_result_words() {
    assert_eq!(SatResult::Sat.as_str(), "SATISFIABLE");
    assert_eq!(SatResult::Unsat.as_str(), "UNSATISFIABLE");
}
