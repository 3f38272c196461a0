use vstd::prelude::*;

verus! {

/// A literal over variables numbered from 0: variable `var` with value `val`.
#[derive(Clone, Copy, Debug, PartialEq, Eq, Structural)]
pub struct Lit {
    pub var: u32,
    pub val: bool,
}

impl Lit {
    pub fn new(var: u32, val: bool) -> (r: Lit)
        ensures
            r.var == var,
            r.val == val,
    {
        Lit { var, val }
    }

    pub open spec fn conflicts_with(self, other: Lit) -> bool {
        self.var == other.var && self.val != other.val
    }
}

/// A disjunction of literals.
pub struct Clause(pub Vec<Lit>);

/// An assignment as given: a list of literals, not yet checked.
pub struct UncheckedAsn(pub Vec<Lit>);

/// Outcome of checking an assignment against a formula.
#[derive(Clone, Copy, Debug, PartialEq, Eq, Structural)]
pub enum CheckRes {
    Inconsistent,
    VarsOutOfRange,
    Incomplete,
    Verified,
}

/// A formula whose variables are all below `num_vars`.
pub struct Formula {
    clauses: Vec<Clause>,
    num_vars: u32,
}

/// The assignment gives variable `v` the value `b`.
pub open spec fn asn_sets(asn: Seq<Lit>, v: nat, b: bool) -> bool {
    exists|i: int| 0 <= i < asn.len() && (#[trigger] asn[i]).var == v && asn[i].val == b
}

/// The first error met while reading the assignment left to right, if any.
pub open spec fn asn_error(asn: Seq<Lit>, num_vars: nat) -> Option<CheckRes>
    decreases asn.len(),
{
    if asn.len() == 0 {
        None
    } else {
        let prev = asn.drop_last();
        match asn_error(prev, num_vars) {
            Some(e) => Some(e),
            None => {
                let l = asn.last();
                if l.var >= num_vars {
                    Some(CheckRes::VarsOutOfRange)
                } else if exists|j: int| 0 <= j < prev.len() && (#[trigger] prev[j]).conflicts_with(l) {
                    Some(CheckRes::Inconsistent)
                } else {
                    None
                }
            },
        }
    }
}

/// Every clause has a literal that the assignment sets.
pub open spec fn asn_satisfies(asn: Seq<Lit>, clauses: Seq<Seq<Lit>>) -> bool {
    forall|i: int| 0 <= i < clauses.len() ==> clause_sat(asn, #[trigger] clauses[i])
}

/// Some literal of the clause is set by the assignment.
pub open spec fn clause_sat(asn: Seq<Lit>, c: Seq<Lit>) -> bool {
    exists|j: int| 0 <= j < c.len() && asn_sets(asn, (#[trigger] c[j]).var as nat, c[j].val)
}

impl Formula {
    pub closed spec fn clauses_spec(&self) -> Seq<Seq<Lit>> {
        self.clauses@.map_values(|c: Clause| c.0@)
    }

    pub closed spec fn num_vars_spec(&self) -> nat {
        self.num_vars as nat
    }

    /// Every variable of the clauses is below `num_vars`.
    pub open spec fn vars_in_range(&self) -> bool {
        forall|i: int, j: int|
            0 <= i < self.clauses_spec().len() && 0 <= j < self.clauses_spec()[i].len() ==> (#[trigger] self.clauses_spec()[i][j]).var
                < self.num_vars_spec()
    }

    /// The formula of `clauses` over variables `0..num_vars`, or `None` when
    /// a clause names a variable out of range.
    pub fn new(clauses: Vec<Clause>, num_vars: u32) -> (r: Option<Formula>)
        ensures
            match r {
                Some(f) => f.vars_in_range() && f.clauses_spec() == clauses@.map_values(|c: Clause| c.0@) && f.num_vars_spec() == num_vars,
                None => exists|i: int, j: int|
                    0 <= i < clauses@.len() && 0 <= j < clauses@[i].0@.len() && (#[trigger] clauses@[i].0@[j]).var >= num_vars,
            },
    {
        let mut i: usize = 0;
        while i < clauses.len()
            invariant
                i <= clauses@.len(),
                forall|a: int, j: int| 0 <= a < i && 0 <= j < clauses@[a].0@.len() ==> (#[trigger] clauses@[a].0@[j]).var < num_vars,
            decreases clauses@.len() - i,
        {
            let c = &clauses[i].0;
            let mut j: usize = 0;
            while j < c.len()
                invariant
                    j <= c@.len(),
                    c@ == clauses@[i as int].0@,
                    i < clauses@.len(),
                    forall|k: int| 0 <= k < j ==> (#[trigger] c@[k]).var < num_vars,
                decreases c@.len() - j,
            {
                if c[j].var >= num_vars {
                    return None;
                }
                j = j + 1;
            }
            i = i + 1;
        }
        let f = Formula { clauses, num_vars };
        proof {
            assert forall|a: int, j: int|
                0 <= a < f.clauses_spec().len() && 0 <= j < f.clauses_spec()[a].len() implies (#[trigger] f.clauses_spec()[a][j]).var
                    < f.num_vars_spec() by {
                assert(f.clauses_spec()[a] == f.clauses@[a].0@);
            }
        }
        Some(f)
    }

    /// Checks the assignment: every literal's variable below `num_vars`, no
    /// variable given both values, and every clause satisfied.
    pub fn check_sat(&self, input_assignment: &UncheckedAsn) -> (r: CheckRes)
        requires
            self.vars_in_range(),
        ensures
            r == match asn_error(input_assignment.0@, self.num_vars_spec()) {
                Some(e) => e,
                None => if asn_satisfies(input_assignment.0@, self.clauses_spec()) {
                    CheckRes::Verified
                } else {
                    CheckRes::Incomplete
                },
            },
    {
        match to_assignment_vec(&input_assignment.0, self.num_vars) {
            Err(e) => e,
            Ok(state) => self.is_sat(&state, Ghost(input_assignment.0@)),
        }
    }

    fn is_sat(&self, state: &Vec<Option<bool>>, Ghost(asn): Ghost<Seq<Lit>>) -> (r: CheckRes)
        requires
            self.vars_in_range(),
            state@.len() == self.num_vars,
            state_maps(state@, asn),
        ensures
            r == if asn_satisfies(asn, self.clauses_spec()) {
                CheckRes::Verified
            } else {
                CheckRes::Incomplete
            },
    {
        let ghost cs = self.clauses_spec();
        let mut i: usize = 0;
        while i < self.clauses.len()
            invariant
                i <= self.clauses@.len(),
                cs == self.clauses_spec(),
                self.vars_in_range(),
                state@.len() == self.num_vars,
                state_maps(state@, asn),
                forall|a: int| 0 <= a < i ==> clause_sat(asn, #[trigger] cs[a]),
            decreases self.clauses@.len() - i,
        {
            let c = &self.clauses[i].0;
            assert(c@ == cs[i as int]);
            let mut sat = false;
            let mut j: usize = 0;
            while j < c.len()
                invariant
                    j <= c@.len(),
                    c@ == cs[i as int],
                    i < cs.len(),
                    cs == self.clauses_spec(),
                    self.vars_in_range(),
                    state@.len() == self.num_vars,
                    state_maps(state@, asn),
                    !sat ==> forall|k: int| 0 <= k < j ==> !asn_sets(asn, (#[trigger] c@[k]).var as nat, c@[k].val),
                    sat ==> exists|k: int| 0 <= k < c@.len() && asn_sets(asn, (#[trigger] c@[k]).var as nat, c@[k].val),
                decreases c@.len() - j,
            {
                let l = c[j];
                assert(l.var < self.num_vars_spec());
                let here = match state[l.var as usize] {
                    Some(v) => v == l.val,
                    None => false,
                };
                proof {
                    if here {
                        assert(asn_sets(asn, l.var as nat, l.val));
                    } else if asn_sets(asn, l.var as nat, l.val) {
                        let v = l.var as int;
                        assert(asn_sets(asn, v as nat, l.val));
                        assert(state@[v] == Some(l.val));
                    }
                }
                if here {
                    sat = true;
                    assert(asn_sets(asn, c@[j as int].var as nat, c@[j as int].val));
                }
                j = j + 1;
            }
            if !sat {
                proof {
                    assert(!clause_sat(asn, cs[i as int]));
                    assert(!asn_satisfies(asn, cs));
                }
                return CheckRes::Incomplete;
            }
            assert(clause_sat(asn, cs[i as int]));
            i = i + 1;
        }
        CheckRes::Verified
    }
}

/// `state` holds exactly the values that the assignment sets.
pub open spec fn state_maps(state: Seq<Option<bool>>, asn: Seq<Lit>) -> bool {
    &&& forall|v: int, b: bool| 0 <= v < state.len() && #[trigger] asn_sets(asn, v as nat, b) ==> state[v] == Some(b)
    &&& forall|v: int| 0 <= v < state.len() && (#[trigger] state[v]) is Some ==> asn_sets(asn, v as nat, state[v]->0)
}

proof fn lemma_asn_error_prefix(asn: Seq<Lit>, num_vars: nat, k: int)
    requires
        0 <= k <= asn.len(),
        asn_error(asn.take(k), num_vars) is Some,
    ensures
        asn_error(asn, num_vars) == asn_error(asn.take(k), num_vars),
    decreases asn.len() - k,
{
    if k < asn.len() {
        assert(asn.take(k + 1).drop_last() =~= asn.take(k));
        lemma_asn_error_prefix(asn, num_vars, k + 1);
    } else {
        assert(asn.take(k) =~= asn);
    }
}

/// The assignment as a vector indexed by variable, or its first error.
fn to_assignment_vec(asn: &Vec<Lit>, num_vars: u32) -> (r: Result<Vec<Option<bool>>, CheckRes>)
    ensures
        match r {
            Ok(state) => asn_error(asn@, num_vars as nat) is None && state@.len() == num_vars && state_maps(state@, asn@),
            Err(e) => asn_error(asn@, num_vars as nat) == Some(e),
        },
{
    let mut state: Vec<Option<bool>> = Vec::new();
    while state.len() < num_vars as usize
        invariant
            state@.len() <= num_vars,
            forall|v: int| 0 <= v < state@.len() ==> #[trigger] state@[v] is None,
        decreases num_vars - state@.len(),
    {
        state.push(None);
    }
    let mut k: usize = 0;
    while k < asn.len()
        invariant
            k <= asn@.len(),
            state@.len() == num_vars,
            asn_error(asn@.take(k as int), num_vars as nat) is None,
            state_maps(state@, asn@.take(k as int)),
        decreases asn@.len() - k,
    {
        let lit = asn[k];
        let ghost prev = asn@.take(k as int);
        let ghost next = asn@.take(k + 1);
        assert(next.drop_last() =~= prev);
        assert(next.last() == lit);
        if lit.var >= num_vars {
            proof {
                lemma_asn_error_prefix(asn@, num_vars as nat, k + 1);
            }
            return Err(CheckRes::VarsOutOfRange);
        }
        if let Some(assigned) = state[lit.var as usize] {
            if assigned != lit.val {
                proof {
                    assert(asn_sets(prev, lit.var as nat, assigned));
                    let i = choose|i: int| 0 <= i < prev.len() && (#[trigger] prev[i]).var == lit.var && prev[i].val == assigned;
                    assert(prev[i].conflicts_with(lit));
                    lemma_asn_error_prefix(asn@, num_vars as nat, k + 1);
                }
                return Err(CheckRes::Inconsistent);
            }
        }
        proof {
            assert forall|j: int| 0 <= j < prev.len() implies !(#[trigger] prev[j]).conflicts_with(lit) by {
                if prev[j].conflicts_with(lit) {
                    assert(asn_sets(prev, lit.var as nat, prev[j].val));
                }
            }
        }
        state.set(lit.var as usize, Some(lit.val));
        proof {
            assert forall|v: int, b: bool| 0 <= v < state@.len() && #[trigger] asn_sets(next, v as nat, b) implies state@[v] == Some(b) by {
                let i = choose|i: int| 0 <= i < next.len() && (#[trigger] next[i]).var == v && next[i].val == b;
                if i < k {
                    assert(prev[i] == next[i]);
                    assert(asn_sets(prev, v as nat, b));
                }
            }
            assert forall|v: int| 0 <= v < state@.len() && (#[trigger] state@[v]) is Some implies asn_sets(next, v as nat, state@[v]->0) by {
                if v == lit.var {
                    assert(next[k as int] == lit);
                } else {
                    let b = state@[v]->0;
                    let i = choose|i: int| 0 <= i < prev.len() && (#[trigger] prev[i]).var == v && prev[i].val == b;
                    assert(next[i] == prev[i]);
                }
            }
        }
        k = k + 1;
    }
    assert(asn@.take(asn@.len() as int) =~= asn@);
    Ok(state)
}

} // verus!
