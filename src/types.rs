use vstd::prelude::*;

verus! {

pub type VarId = usize;

pub type Clause = Vec<Lit>;

pub type ClauseId = usize;

pub type DecisionLevel = u32;

/// Outcome of a search.
#[derive(Clone, Copy, PartialEq, Eq, Structural, Debug)]
pub enum SatResult {
    Sat,
    Unsat,
}

impl SatResult {
    /// The word that the solver's `s` line prints for this outcome.
    pub fn as_str(&self) -> (r: &'static str)
        ensures
            *self is Sat ==> r@ == "SATISFIABLE"@,
            *self is Unsat ==> r@ == "UNSATISFIABLE"@,
    {
        proof {
            reveal_strlit("SATISFIABLE");
            reveal_strlit("UNSATISFIABLE");
        }
        match self {
            SatResult::Sat => "SATISFIABLE",
            SatResult::Unsat => "UNSATISFIABLE",
        }
    }
}

/// Largest variable that a literal can name.
pub const MAX_VAR: u32 = 0x7fff_ffff;

/// A literal packed in a non-zero `u32`: DIMACS `n > 0` is `(n << 1) | 1`,
/// `-n` is `n << 1`.
#[derive(Clone, Copy, PartialEq, Eq, Structural, PartialOrd, Ord, Debug)]
pub struct Lit {
    code: u32,
}

impl View for Lit {
    type V = u32;

    open spec fn view(&self) -> u32 {
        self.code_spec()
    }
}

impl Lit {
    pub closed spec fn code_spec(self) -> u32 {
        self.code
    }

    /// A literal is determined by its code.
    pub proof fn lemma_view_injective(a: Lit, b: Lit)
        requires
            a@ == b@,
        ensures
            a == b,
    {
    }

    pub open spec fn var_spec(self) -> nat {
        (self@ / 2) as nat
    }

    pub open spec fn pol_spec(self) -> bool {
        self@ % 2 == 1
    }

    /// The literal on `var` with polarity `pol`.
    pub open spec fn of(var: nat, pol: bool) -> u32 {
        (2 * var + if pol { 1int } else { 0int }) as u32
    }

    /// The DIMACS integer of this literal.
    pub open spec fn dimacs_spec(self) -> int {
        dimacs_of_code(self@)
    }

    /// The code of the DIMACS integer `n`.
    pub open spec fn code_of_dimacs(n: int) -> u32 {
        if n < 0 {
            Lit::of((-n) as nat, false)
        } else {
            Lit::of(n as nat, true)
        }
    }

    pub fn code(&self) -> (r: u32)
        ensures
            r == self@,
    {
        self.code
    }

    pub fn var(&self) -> (r: VarId)
        ensures
            r == self.var_spec(),
    {
        let c = self.code;
        assert(c >> 1 == c / 2) by (bit_vector);
        (c >> 1) as usize
    }

    pub fn as_bool(&self) -> (r: bool)
        ensures
            r == self.pol_spec(),
    {
        let c = self.code;
        assert((c & 1 != 0) == (c % 2 == 1)) by (bit_vector);
        (c & 1) != 0
    }

    /// The literal on the same variable with the other polarity.
    pub fn negate(&self) -> (r: Lit)
        requires
            self.var_spec() >= 1,
        ensures
            r.var_spec() == self.var_spec(),
            r.pol_spec() == !self.pol_spec(),
            r@ == negated_code(self@),
    {
        let c = self.code;
        assert((c ^ 1) / 2 == c / 2 && ((c ^ 1) % 2 == 1) == (c % 2 == 0) && (c ^ 1) == (if c % 2 == 1 { c - 1 } else { c + 1 })) by (bit_vector)
            requires c >= 2;
        Lit { code: c ^ 1 }
    }

    /// The literal on `var` with polarity `pol`.
    pub fn from_var_pol(var: VarId, pol: bool) -> (r: Lit)
        requires
            1 <= var <= MAX_VAR,
        ensures
            r@ == Lit::of(var as nat, pol),
            r.var_spec() == var,
            r.pol_spec() == pol,
    {
        let v = var as u32;
        let code: u32 = if pol { 2 * v + 1 } else { 2 * v };
        Lit { code }
    }

    /// The literal of a non-zero DIMACS integer.
    pub fn from_dimacs(n: i32) -> (r: Lit)
        requires
            n != 0,
            n != i32::MIN,
        ensures
            r@ == Lit::code_of_dimacs(n as int),
            r.dimacs_spec() == n,
    {
        if n < 0 {
            Lit::from_var_pol((-n) as usize, false)
        } else {
            Lit::from_var_pol(n as usize, true)
        }
    }

    /// The DIMACS integer of this literal.
    pub fn to_dimacs(&self) -> (r: i32)
        ensures
            r == self.dimacs_spec(),
    {
        let v = self.var() as i32;
        if self.as_bool() {
            v
        } else {
            -v
        }
    }
}

/// The DIMACS integer of a literal code.
pub open spec fn dimacs_of_code(c: u32) -> int {
    if c % 2 == 1 {
        (c / 2) as int
    } else {
        -((c / 2) as int)
    }
}

/// The code of the literal with the same variable and the other polarity.
pub open spec fn negated_code(c: u32) -> u32 {
    Lit::of((c / 2) as nat, !(c % 2 == 1))
}

/// Decoding a DIMACS integer and encoding it again gives it back, and
/// negating a literal twice gives it back.
pub proof fn lemma_lit_round_trip(n: int, c: u32)
    requires
        n != 0,
        -0x7fff_ffff <= n <= 0x7fff_ffff,
        c >= 2,
    ensures
        dimacs_of_code(Lit::code_of_dimacs(n)) == n,
        negated_code(negated_code(c)) == c,
{
}

/// Total assignments: `m[v]` is the value of variable `v` (index 0 unused).
pub open spec fn sat_lit(m: Seq<bool>, l: Lit) -> bool {
    m[l.var_spec() as int] == l.pol_spec()
}

pub open spec fn sat_clause(m: Seq<bool>, c: Seq<Lit>) -> bool {
    exists|j: int| 0 <= j < c.len() && sat_lit(m, #[trigger] c[j])
}

pub open spec fn sat_formula(m: Seq<bool>, f: Seq<Seq<Lit>>) -> bool {
    forall|i: int| 0 <= i < f.len() ==> sat_clause(m, #[trigger] f[i])
}

/// `m` is a model of `f` over variables `1..=n`.
pub open spec fn is_model(m: Seq<bool>, n: nat, f: Seq<Seq<Lit>>) -> bool {
    m.len() == n + 1 && sat_formula(m, f)
}

/// Every literal of `c` names a variable in `1..=n`.
pub open spec fn clause_in_range(c: Seq<Lit>, n: nat) -> bool {
    forall|j: int| 0 <= j < c.len() ==> 1 <= (#[trigger] c[j]).var_spec() <= n
}

} // verus!
