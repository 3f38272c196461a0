use vstd::prelude::*;
use vstd::arithmetic::power2::pow2;
use vstd::set_lib::set_int_range;
use crate::luby::{Luby, luby_step};
use crate::stats::Stats;
use crate::resolution::{canonical, resolve, strictly_sorted, lemma_resolution_sound, lemma_code_eq};
use crate::types::{
    Clause, ClauseId, DecisionLevel, Lit, SatResult, VarId, MAX_VAR, clause_in_range, is_model,
    sat_clause, sat_lit,
};

verus! {

/// Conflicts before the first restart; later intervals are Luby multiples of it.
pub const RESTART_SCALE: u64 = 512;

/// `l` is true under the partial assignment `asg`.
pub open spec fn is_true(asg: Seq<Option<bool>>, l: Lit) -> bool {
    asg[l.var_spec() as int] == Some(l.pol_spec())
}

/// `l` is false under the partial assignment `asg`.
pub open spec fn is_false(asg: Seq<Option<bool>>, l: Lit) -> bool {
    asg[l.var_spec() as int] == Some(!l.pol_spec())
}

/// `l` is true under the part of `asg` made at decision levels up to `j`.
pub open spec fn true_at(asg: Seq<Option<bool>>, lv: Seq<u32>, l: Lit, j: int) -> bool {
    is_true(asg, l) && lv[l.var_spec() as int] <= j
}

/// `l` is unassigned under the part of `asg` made at decision levels up to `j`.
pub open spec fn unset_at(asg: Seq<Option<bool>>, lv: Seq<u32>, l: Lit, j: int) -> bool {
    asg[l.var_spec() as int] is None || lv[l.var_spec() as int] > j
}

/// Under the part of the assignment made at levels up to `j`, clause `c` is
/// neither unit nor falsified: it has a true literal, or two unassigned
/// positions.
pub open spec fn open_at(asg: Seq<Option<bool>>, lv: Seq<u32>, c: Seq<Lit>, j: int) -> bool {
    (exists|q: int| 0 <= q < c.len() && true_at(asg, lv, #[trigger] c[q], j)) || (exists|
        q1: int,
        q2: int,
    |
        0 <= q1 < c.len() && 0 <= q2 < c.len() && q1 != q2 && unset_at(asg, lv, #[trigger] c[q1], j)
            && unset_at(asg, lv, #[trigger] c[q2], j))
}

/// Every model of `f` over `1..=n` satisfies `c`.
pub open spec fn implied(c: Seq<Lit>, n: nat, f: Seq<Seq<Lit>>) -> bool {
    forall|m: Seq<bool>| #[trigger] is_model(m, n, f) ==> sat_clause(m, c)
}

/// The literal codes of a clause, as a set.
pub open spec fn codes(c: Seq<Lit>) -> Set<int> {
    Set::new(|x: int| exists|j: int| 0 <= j < c.len() && (#[trigger] c[j])@ == x)
}

/// The restart threshold after a restart at `conflicts` conflicts with Luby
/// term `term`: `conflicts + term * RESTART_SCALE`, saturating at `u64::MAX`.
pub open spec fn next_threshold(conflicts: u64, term: u64) -> u64 {
    let step = if term * RESTART_SCALE > u64::MAX { u64::MAX as int } else { term * RESTART_SCALE };
    if conflicts + step > u64::MAX {
        u64::MAX
    } else {
        (conflicts + step) as u64
    }
}

/// The conflict count after `k` conflicts, each of which appends one learnt
/// clause: `k`, saturating at `u64::MAX`.
pub open spec fn learnt_count(k: int) -> u64 {
    if k > u64::MAX {
        u64::MAX
    } else {
        k as u64
    }
}

/// How many literals of `c` are on variable `v`.
pub open spec fn occurrences(c: Seq<Lit>, v: int) -> nat
    decreases c.len(),
{
    if c.len() == 0 {
        0
    } else {
        occurrences(c.drop_last(), v) + if c.last().var_spec() == v {
            1nat
        } else {
            0nat
        }
    }
}

/// `x` raised by `k`, saturating at `i64::MAX`.
pub open spec fn bumped(x: i64, k: nat) -> i64 {
    if x + k > i64::MAX {
        i64::MAX
    } else {
        (x + k) as i64
    }
}

/// All literal codes over variables `1..=n`.
pub open spec fn universe(n: nat) -> Set<int> {
    set_int_range(2, (2 * n + 2) as int)
}

/// A CDCL search state: clause database, assignment trail and per-variable
/// bookkeeping, all indexed by variable (index 0 unused).
pub struct Solver {
    clauses: Vec<Clause>,
    decision_level: DecisionLevel,
    num_vars: u32,
    num_assigned: u32,
    conflicts: u64,
    next_restart: u64,
    restarts: u64,
    propagations: u64,
    assignments: Vec<Option<bool>>,
    decision_levels: Vec<DecisionLevel>,
    antecedents: Vec<Option<ClauseId>>,
    phases: Vec<bool>,
    frequencies: Vec<i64>,
    frequencies_cache: Vec<i64>,
    trail: Vec<VarId>,
    trail_pos: Vec<usize>,
    luby: Luby,
    input: Ghost<Seq<Seq<Lit>>>,
    learnt_sets: Ghost<Set<Set<int>>>,
}

/// A copy of a clause.
fn copy_clause(c: &Clause) -> (r: Clause)
    ensures
        r@ == c@,
{
    let mut r: Clause = Vec::new();
    let mut j: usize = 0;
    while j < c.len()
        invariant
            j <= c@.len(),
            r@ == c@.subrange(0, j as int),
        decreases c@.len() - j,
    {
        r.push(c[j]);
        j = j + 1;
    }
    assert(c@.subrange(0, c@.len() as int) =~= c@);
    r
}

impl Solver {
    /// The clauses given to `add_clause`, in order.
    pub closed spec fn formula(&self) -> Seq<Seq<Lit>> {
        self.input@
    }

    pub closed spec fn num_vars_spec(&self) -> nat {
        self.num_vars as nat
    }

    /// Current value of each variable (index 0 unused).
    pub closed spec fn values(&self) -> Seq<Option<bool>> {
        self.assignments@
    }

    /// Activity score of each variable (`-1` while it is assigned).
    pub closed spec fn activity(&self) -> Seq<i64> {
        self.frequencies@
    }

    /// Activity accumulated from clause occurrences.
    pub closed spec fn activity_cache(&self) -> Seq<i64> {
        self.frequencies_cache@
    }

    /// Saved polarity of each variable.
    pub closed spec fn phases_spec(&self) -> Seq<bool> {
        self.phases@
    }

    /// Current decision level.
    pub closed spec fn level(&self) -> nat {
        self.decision_level as nat
    }

    /// Conflict count at which the next restart happens.
    pub closed spec fn next_restart_spec(&self) -> u64 {
        self.next_restart
    }

    /// State of the restart sequence.
    pub closed spec fn luby_spec(&self) -> Luby {
        self.luby
    }

    pub closed spec fn db(&self) -> Seq<Seq<Lit>> {
        self.clauses@.map_values(|c: Clause| c@)
    }

    spec fn n(&self) -> nat {
        self.num_vars as nat
    }

    spec fn asg(&self) -> Seq<Option<bool>> {
        self.assignments@
    }

    spec fn lv(&self) -> Seq<u32> {
        self.decision_levels@
    }

    #[verifier::opaque]
    spec fn wf_sizes(&self) -> bool {
        let len = self.num_vars + 1;
        &&& self.num_vars <= MAX_VAR
        &&& self.assignments@.len() == len
        &&& self.decision_levels@.len() == len
        &&& self.antecedents@.len() == len
        &&& self.phases@.len() == len
        &&& self.frequencies@.len() == len
        &&& self.frequencies_cache@.len() == len
        &&& self.trail_pos@.len() == len
    }

    #[verifier::opaque]
    spec fn wf_clauses(&self) -> bool {
        let orig = self.input@;
        &&& forall|i: int|
            0 <= i < self.clauses@.len() ==> clause_in_range(#[trigger] self.clauses@[i]@, self.n())
        &&& orig.len() <= self.clauses@.len()
        &&& forall|i: int| 0 <= i < orig.len() ==> #[trigger] self.clauses@[i]@ == orig[i]
        &&& forall|i: int|
            0 <= i < self.clauses@.len() ==> implied(#[trigger] self.clauses@[i]@, self.n(), orig)
    }

    #[verifier::opaque]
    spec fn wf_trail(&self) -> bool {
        let t = self.trail@;
        let len = t.len();
        let lv = self.lv();
        &&& len == self.num_assigned
        &&& forall|p: int|
            0 <= p < len ==> 1 <= #[trigger] t[p] <= self.n() && self.trail_pos@[t[p] as int] == p
                && self.asg()[t[p] as int] is Some && lv[t[p] as int] <= self.decision_level
        &&& forall|v: int|
            0 <= v <= self.n() && (#[trigger] self.asg()[v]) is Some ==> 1 <= v && self.trail_pos@[v]
                < len && t[self.trail_pos@[v] as int] == v
        &&& forall|p: int, q: int|
            0 <= p < q < len ==> lv[#[trigger] t[p] as int] <= lv[#[trigger] t[q] as int]
        &&& forall|p: int| 0 < p < len ==> lv[#[trigger] t[p] as int] <= lv[t[p - 1] as int] + 1
        &&& len > 0 ==> lv[t[0] as int] <= 1
    }

    /// The last assignment on the trail was made at the current level.
    #[verifier::opaque]
    spec fn wf_top(&self) -> bool {
        let t = self.trail@;
        let len = t.len();
        &&& len > 0 ==> self.lv()[t[len - 1] as int] == self.decision_level
        &&& len == 0 ==> self.decision_level == 0
    }

    #[verifier::opaque]
    spec fn wf_vars(&self) -> bool {
        forall|v: int|
            0 <= v <= self.n() ==> {
                &&& (#[trigger] self.asg()[v]) is None ==> {
                    &&& self.lv()[v] == 0
                    &&& self.antecedents@[v] is None
                    &&& self.frequencies@[v] == self.frequencies_cache@[v]
                }
                &&& self.asg()[v] is Some ==> self.frequencies@[v] == -1
                &&& self.frequencies_cache@[v] >= 0
            }
    }

    /// Clause `c` is a sound reason for the current value of `v`.
    spec fn reason_ok(&self, v: int, c: int) -> bool {
        let cl = self.clauses@[c]@;
        let own = Lit::of(v as nat, self.asg()[v]->0);
        &&& 0 <= c < self.clauses@.len()
        &&& exists|q: int| 0 <= q < cl.len() && (#[trigger] cl[q])@ == own
        &&& forall|q: int|
            0 <= q < cl.len() ==> (#[trigger] cl[q])@ == own || {
                &&& is_false(self.asg(), cl[q])
                &&& self.trail_pos@[cl[q].var_spec() as int] < self.trail_pos@[v]
                &&& self.lv()[cl[q].var_spec() as int] <= self.lv()[v]
            }
    }

    #[verifier::opaque]
    spec fn wf_reasons(&self) -> bool {
        forall|v: int|
            1 <= v <= self.n() && (#[trigger] self.asg()[v]) is Some ==> match self.antecedents@[v] {
                Some(c) => self.reason_ok(v, c as int),
                None => self.lv()[v] >= 1 && (self.trail_pos@[v] == 0 || self.lv()[self.trail@[
                    self.trail_pos@[v] - 1] as int] < self.lv()[v]),
            }
    }

    #[verifier::opaque]
    spec fn wf_zero(&self) -> bool {
        forall|m: Seq<bool>|
            #[trigger] is_model(m, self.n(), self.input@) ==> forall|v: int|
                1 <= v <= self.n() && (#[trigger] self.asg()[v]) is Some && self.lv()[v] == 0
                    ==> m[v] == self.asg()[v]->0
    }

    /// Every clause is open at every level below `b`.
    #[verifier::opaque]
    spec fn wf_fix_below(&self, b: int) -> bool {
        forall|c: int, j: int|
            0 <= c < self.clauses@.len() && 0 <= j < b ==> #[trigger] open_at(
                self.asg(),
                self.lv(),
                self.clauses@[c]@,
                j,
            )
    }

    #[verifier::opaque]
    spec fn wf_sets(&self) -> bool {
        &&& self.learnt_sets@.finite()
        &&& forall|s: Set<int>|
            #[trigger] self.learnt_sets@.contains(s) ==> s.subset_of(universe(self.n())) && exists|
                i: int,
            |
                0 <= i < self.clauses@.len() && (#[trigger] self.clauses@[i])@.no_duplicates() && codes(
                    self.clauses@[i]@,
                ) == s
    }

    /// The search state is well formed.
    pub closed spec fn wf(&self) -> bool {
        &&& self.wf_sizes()
        &&& self.wf_clauses()
        &&& self.wf_trail()
        &&& self.wf_top()
        &&& self.wf_vars()
        &&& self.wf_reasons()
        &&& self.wf_zero()
        &&& self.wf_fix_below(self.decision_level as int)
        &&& self.wf_sets()
    }

    /// No variable is assigned yet: clauses may still be added.
    pub closed spec fn pristine(&self) -> bool {
        &&& self.wf()
        &&& self.trail@.len() == 0
        &&& self.decision_level == 0
        &&& self.clauses@.len() == self.input@.len()
        &&& self.conflicts == 0
    }

    /// An empty solver over variables `1..=num_vars`.
    #[verifier::spinoff_prover]
    pub fn new(num_vars: u32) -> (r: Solver)
        requires
            num_vars <= MAX_VAR,
        ensures
            r.pristine(),
            r.wf(),
            r.num_assigned_spec() == 0,
            r.num_vars_spec() == num_vars,
            r.formula() == Seq::<Seq<Lit>>::empty(),
            r.db() == Seq::<Seq<Lit>>::empty(),
            r.level() == 0,
            r.values().len() == num_vars + 1,
            r.levels().len() == num_vars + 1,
            r.reasons().len() == num_vars + 1,
            r.phases_spec().len() == num_vars + 1,
            r.activity().len() == num_vars + 1,
            r.activity_cache().len() == num_vars + 1,
            forall|v: int| 0 <= v <= num_vars ==> {
                &&& (#[trigger] r.values()[v]) is None
                &&& r.levels()[v] == 0
                &&& r.reasons()[v] is None
                &&& r.phases_spec()[v] == false
                &&& r.activity()[v] == 0
                &&& r.activity_cache()[v] == 0
            },
            r.conflicts_spec() == 0,
            r.restarts_spec() == 0,
            r.propagations_spec() == 0,
            r.next_restart_spec() == RESTART_SCALE,
            r.luby_spec().un_spec() == 1,
            r.luby_spec().vn_spec() == 1,
    {
        let len = num_vars as usize + 1;
        let mut assignments: Vec<Option<bool>> = Vec::new();
        let mut decision_levels: Vec<DecisionLevel> = Vec::new();
        let mut antecedents: Vec<Option<ClauseId>> = Vec::new();
        let mut phases: Vec<bool> = Vec::new();
        let mut frequencies: Vec<i64> = Vec::new();
        let mut frequencies_cache: Vec<i64> = Vec::new();
        let mut trail_pos: Vec<usize> = Vec::new();
        let mut i: usize = 0;
        while i < len
            invariant
                len == num_vars + 1,
                i <= len,
                assignments@.len() == i,
                decision_levels@.len() == i,
                antecedents@.len() == i,
                phases@.len() == i,
                frequencies@.len() == i,
                frequencies_cache@.len() == i,
                trail_pos@.len() == i,
                forall|v: int| 0 <= v < i ==> {
                    &&& (#[trigger] assignments@[v]) is None
                    &&& decision_levels@[v] == 0
                    &&& antecedents@[v] is None
                    &&& phases@[v] == false
                    &&& frequencies@[v] == 0
                    &&& frequencies_cache@[v] == 0
                },
            decreases len - i,
        {
            assignments.push(None);
            decision_levels.push(0);
            antecedents.push(None);
            phases.push(false);
            frequencies.push(0);
            frequencies_cache.push(0);
            trail_pos.push(0);
            i = i + 1;
        }
        let s = Solver {
            clauses: Vec::new(),
            decision_level: 0,
            num_vars,
            num_assigned: 0,
            conflicts: 0,
            next_restart: RESTART_SCALE,
            restarts: 0,
            propagations: 0,
            assignments,
            decision_levels,
            antecedents,
            phases,
            frequencies,
            frequencies_cache,
            trail: Vec::new(),
            trail_pos,
            luby: Luby::new(),
            input: Ghost(Seq::empty()),
            learnt_sets: Ghost(Set::empty()),
        };
        proof {
            reveal(Solver::wf_sizes); reveal(Solver::wf_clauses); reveal(Solver::wf_trail); reveal(Solver::wf_top); reveal(Solver::wf_vars); reveal(Solver::wf_reasons); reveal(Solver::wf_zero); reveal(Solver::wf_fix_below); reveal(Solver::wf_sets);
        }
        s
    }

    /// Counts one more occurrence of each literal of `clause` in the activity
    /// scores and appends it to the database.
    #[verifier::spinoff_prover]
    fn push_clause(&mut self, clause: Clause)
        requires
            old(self).wf_sizes(),
            old(self).wf_vars(),
            clause_in_range(clause@, old(self).n()),
        ensures
            final(self).clauses@ == old(self).clauses@.push(clause),
            final(self).frequencies_cache@.len() == old(self).frequencies_cache@.len(),
            final(self).frequencies@.len() == old(self).frequencies@.len(),
            forall|v: int| 0 <= v <= old(self).n() ==> #[trigger] final(self).frequencies_cache@[v] == bumped(old(self).frequencies_cache@[v], occurrences(clause@, v)),
            forall|v: int| 0 <= v <= old(self).n() ==> #[trigger] final(self).frequencies@[v] == if old(self).frequencies@[v] == -1 {
                -1i64
            } else {
                bumped(old(self).frequencies@[v], occurrences(clause@, v))
            },
            final(self).wf_sizes(),
            final(self).wf_vars(),
            final(self).decision_level == old(self).decision_level,
            final(self).num_vars == old(self).num_vars,
            final(self).num_assigned == old(self).num_assigned,
            final(self).assignments == old(self).assignments,
            final(self).decision_levels == old(self).decision_levels,
            final(self).antecedents == old(self).antecedents,
            final(self).phases == old(self).phases,
            final(self).trail == old(self).trail,
            final(self).trail_pos == old(self).trail_pos,
            final(self).input == old(self).input,
            final(self).learnt_sets == old(self).learnt_sets,
            final(self).conflicts == old(self).conflicts,
            final(self).restarts == old(self).restarts,
            final(self).next_restart == old(self).next_restart,
            final(self).luby == old(self).luby,
            final(self).propagations == old(self).propagations,
    {
        proof {
            reveal(Solver::wf_sizes);
            reveal(Solver::wf_vars);
            assert(clause@.take(0) =~= Seq::<Lit>::empty());
            assert forall|v: int| 0 <= v <= self.n() implies #[trigger] old(self).frequencies@[v] >= -1 by {
                if old(self).asg()[v] is None {
                }
            }
        }
        let mut j: usize = 0;
        while j < clause.len()
            invariant
                self.wf_sizes(),
                self.wf_vars(),
                clause_in_range(clause@, self.n()),
                self.clauses@ == old(self).clauses@,
                self.decision_level == old(self).decision_level,
                self.num_vars == old(self).num_vars,
                self.num_assigned == old(self).num_assigned,
                self.assignments == old(self).assignments,
                self.decision_levels == old(self).decision_levels,
                self.antecedents == old(self).antecedents,
                self.phases == old(self).phases,
                self.trail == old(self).trail,
                self.trail_pos == old(self).trail_pos,
                self.input == old(self).input,
                self.learnt_sets == old(self).learnt_sets,
                self.conflicts == old(self).conflicts,
                self.restarts == old(self).restarts,
                self.next_restart == old(self).next_restart,
                self.luby == old(self).luby,
                self.propagations == old(self).propagations,
                j <= clause@.len(),
                old(self).wf_sizes(),
                old(self).wf_vars(),
                forall|v: int| 0 <= v <= self.n() ==> #[trigger] self.frequencies_cache@[v] == bumped(old(self).frequencies_cache@[v], occurrences(clause@.take(j as int), v)),
                forall|v: int| 0 <= v <= self.n() ==> #[trigger] self.frequencies@[v] == if old(self).frequencies@[v] == -1 {
                    -1i64
                } else {
                    bumped(old(self).frequencies@[v], occurrences(clause@.take(j as int), v))
                },
                forall|v: int| 0 <= v <= self.n() ==> #[trigger] old(self).frequencies@[v] >= -1,
            decreases clause@.len() - j,
        {
            proof {
                reveal(Solver::wf_sizes);
                reveal(Solver::wf_vars);
            }
            let var = clause[j].var();
            assert(1 <= clause@[j as int].var_spec() <= self.n());
            if self.frequencies[var] != -1 {
                let f = self.frequencies[var];
                if f < i64::MAX {
                    self.frequencies.set(var, f + 1);
                }
            }
            let c = self.frequencies_cache[var];
            if c < i64::MAX {
                self.frequencies_cache.set(var, c + 1);
            }
            proof {
                assert(clause@.take(j + 1).drop_last() =~= clause@.take(j as int));
                assert(clause@.take(j + 1).last() == clause@[j as int]);
                assert forall|v: int| 0 <= v <= self.n() implies #[trigger] self.frequencies_cache@[v] == bumped(old(self).frequencies_cache@[v], occurrences(clause@.take(j + 1), v)) by {}
                assert forall|v: int| 0 <= v <= self.n() implies #[trigger] self.frequencies@[v] == if old(self).frequencies@[v] == -1 {
                    -1i64
                } else {
                    bumped(old(self).frequencies@[v], occurrences(clause@.take(j + 1), v))
                } by {}
                assert forall|v: int| 0 <= v <= self.n() implies {
                    &&& (#[trigger] self.asg()[v]) is None ==> {
                        &&& self.lv()[v] == 0
                        &&& self.antecedents@[v] is None
                        &&& self.frequencies@[v] == self.frequencies_cache@[v]
                    }
                    &&& self.asg()[v] is Some ==> self.frequencies@[v] == -1
                    &&& self.frequencies_cache@[v] >= 0
                } by {
                    if v != var {
                    }
                }
            }
            j = j + 1;
        }
        proof {
            assert(clause@.take(clause@.len() as int) =~= clause@);
        }
        self.clauses.push(clause);
    }

    /// Adds an input clause. Clauses can only be added before the search
    /// starts.
    #[verifier::spinoff_prover]
    pub fn add_clause(&mut self, clause: &Clause)
        requires
            old(self).pristine(),
            clause_in_range(clause@, old(self).num_vars_spec()),
        ensures
            final(self).pristine(),
            final(self).wf(),
            final(self).num_assigned_spec() == 0,
            final(self).num_vars_spec() == old(self).num_vars_spec(),
            final(self).formula() == old(self).formula().push(clause@),
            final(self).db() == old(self).db().push(clause@),
            final(self).values() == old(self).values(),
            final(self).activity_cache().len() == old(self).activity_cache().len(),
            final(self).activity().len() == old(self).activity().len(),
            forall|v: int| 0 <= v <= old(self).num_vars_spec() ==> #[trigger] final(self).activity_cache()[v] == bumped(old(self).activity_cache()[v], occurrences(clause@, v)),
            forall|v: int| 0 <= v <= old(self).num_vars_spec() ==> #[trigger] final(self).activity()[v] == if old(self).activity()[v] == -1 {
                -1i64
            } else {
                bumped(old(self).activity()[v], occurrences(clause@, v))
            },
            final(self).conflicts_spec() == old(self).conflicts_spec(),
            final(self).restarts_spec() == old(self).restarts_spec(),
            final(self).propagations_spec() == old(self).propagations_spec(),
            final(self).next_restart_spec() == old(self).next_restart_spec(),
            final(self).luby_spec() == old(self).luby_spec(),
    {
        proof {
            reveal(Solver::wf_sizes); reveal(Solver::wf_clauses); reveal(Solver::wf_trail); reveal(Solver::wf_top); reveal(Solver::wf_vars); reveal(Solver::wf_reasons); reveal(Solver::wf_zero); reveal(Solver::wf_fix_below); reveal(Solver::wf_sets);
        }
        let c = copy_clause(clause);
        let ghost old_orig = self.input@;
        let ghost n = self.n();
        self.push_clause(c);
        self.input = Ghost(old_orig.push(clause@));
        proof {
            assert(self.db() =~= old(self).db().push(clause@));
            reveal(Solver::wf_sizes); reveal(Solver::wf_clauses); reveal(Solver::wf_trail); reveal(Solver::wf_top); reveal(Solver::wf_vars); reveal(Solver::wf_reasons); reveal(Solver::wf_zero); reveal(Solver::wf_fix_below); reveal(Solver::wf_sets);
            let orig = self.input@;
            assert forall|m: Seq<bool>| #[trigger] is_model(m, n, orig) implies is_model(m, n, old_orig) by {
                assert forall|i: int| 0 <= i < old_orig.len() implies sat_clause(m, #[trigger] old_orig[i]) by {
                    assert(orig[i] == old_orig[i]);
                }
            }
            assert forall|i: int| 0 <= i < self.clauses@.len() implies implied(#[trigger] self.clauses@[i]@, n, orig) by {
                if i == self.clauses@.len() - 1 {
                    assert forall|m: Seq<bool>| #[trigger] is_model(m, n, orig) implies sat_clause(m, self.clauses@[i]@) by {
                        assert(orig[orig.len() - 1] == clause@);
                    }
                } else {
                    assert(implied(old(self).clauses@[i]@, n, old_orig));
                }
            }
            assert forall|i: int| 0 <= i < orig.len() implies #[trigger] self.clauses@[i]@ == orig[i] by {
                if i < old_orig.len() {
                    assert(old(self).clauses@[i]@ == old_orig[i]);
                } else {
                    assert(self.clauses@[i] == self.clauses@.last());
                }
            }
            assert forall|s: Set<int>| #[trigger] self.learnt_sets@.contains(s) implies s.subset_of(universe(n)) && exists|i: int|
                0 <= i < self.clauses@.len() && (#[trigger] self.clauses@[i])@.no_duplicates() && codes(self.clauses@[i]@) == s by {
                let i = choose|i: int|
                    0 <= i < old(self).clauses@.len() && (#[trigger] old(self).clauses@[i])@.no_duplicates() && codes(old(self).clauses@[i]@) == s;
                assert(self.clauses@[i] == old(self).clauses@[i]);
            }
        }
    }

    /// Everything of `wf` but `wf_top`.
    spec fn wf_but_top(&self) -> bool {
        &&& self.wf_sizes()
        &&& self.wf_clauses()
        &&& self.wf_trail()
        &&& self.wf_vars()
        &&& self.wf_reasons()
        &&& self.wf_zero()
        &&& self.wf_fix_below(self.decision_level as int)
        &&& self.wf_sets()
    }


    /// `self` is `o` after setting `lit` true at the current level with
    /// antecedent `reason`.
    spec fn assigned_from(&self, o: Solver, lit: Lit, reason: Option<ClauseId>) -> bool {
        let v = lit.var_spec() as int;
        &&& self.clauses == o.clauses
        &&& self.decision_level == o.decision_level
        &&& self.num_vars == o.num_vars
        &&& self.num_assigned == o.num_assigned + 1
        &&& self.asg() == o.asg().update(v, Some(lit.pol_spec()))
        &&& self.lv() == o.lv().update(v, o.decision_level)
        &&& self.antecedents@ == o.antecedents@.update(v, reason)
        &&& self.phases == o.phases
        &&& self.frequencies@ == o.frequencies@.update(v, -1i64)
        &&& self.frequencies_cache == o.frequencies_cache
        &&& self.trail@ == o.trail@.push(v as usize)
        &&& self.trail_pos@ == o.trail_pos@.update(v, o.trail@.len() as usize)
        &&& self.input == o.input
        &&& self.learnt_sets == o.learnt_sets
        &&& self.conflicts == o.conflicts
        &&& self.restarts == o.restarts
        &&& self.next_restart == o.next_restart
        &&& self.luby == o.luby
    }

    /// What `assign` needs: a well-formed state (whose level may have just
    /// been raised for a decision), an unassigned variable, and a sound
    /// reason.
    spec fn assign_pre(&self, lit: Lit, reason: Option<ClauseId>) -> bool {
        &&& self.wf_but_top()
        &&& 1 <= lit.var_spec() <= self.n()
        &&& self.asg()[lit.var_spec() as int] is None
        &&& reason is None ==> self.decision_pre()
        &&& reason is Some ==> self.reason_pre(lit, reason->0 as int)
    }

    /// The level has just been raised for a decision.
    spec fn decision_pre(&self) -> bool {
        &&& self.decision_level >= 1
        &&& self.trail@.len() == 0 ==> self.decision_level == 1
        &&& self.trail@.len() > 0 ==> self.lv()[self.trail@.last() as int] + 1 == self.decision_level
    }

    /// Clause `c` is unit with remaining literal `lit`.
    spec fn reason_pre(&self, lit: Lit, c: int) -> bool {
        &&& self.wf_top()
        &&& 0 <= c < self.clauses@.len()
        &&& exists|q: int| 0 <= q < self.clauses@[c]@.len() && #[trigger] self.clauses@[c]@[q] == lit
        &&& forall|q: int|
            0 <= q < self.clauses@[c]@.len() ==> #[trigger] self.clauses@[c]@[q] == lit || is_false(
                self.asg(),
                self.clauses@[c]@[q],
            )
        &&& self.decision_level == 0 ==> forall|m: Seq<bool>|
            #[trigger] is_model(m, self.n(), self.input@) ==> sat_lit(m, lit)
    }

    /// Sets `lit` true at the current decision level, with `reason` as its
    /// antecedent (`None` for a decision).
    #[verifier::spinoff_prover]
    fn assign(&mut self, lit: Lit, reason: Option<ClauseId>)
        requires
            old(self).assign_pre(lit, reason),
        ensures
            final(self).wf(),
            final(self).assigned_from(*old(self), lit, reason),
    {
        let var = lit.var();
        proof {
            reveal(Solver::wf_sizes);
            reveal(Solver::wf_trail);
            lemma_trail_short(self.trail@, self.n(), self.trail_pos@, self.asg(), var as int);
        }
        self.assignments.set(var, Some(lit.as_bool()));
        self.decision_levels.set(var, self.decision_level);
        self.antecedents.set(var, reason);
        self.frequencies.set(var, -1);
        self.trail_pos.set(var, self.trail.len());
        self.trail.push(var);
        self.num_assigned = self.num_assigned + 1;
        proof {
            lemma_assign_wf(*old(self), *self, lit, reason);
        }
    }

    /// `self` is `o` with the last variable of the trail unassigned.
    spec fn popped_from(&self, o: Solver) -> bool {
        let v = o.trail@.last() as int;
        &&& o.trail@.len() > 0
        &&& self.clauses == o.clauses
        &&& self.decision_level == o.decision_level
        &&& self.num_vars == o.num_vars
        &&& self.num_assigned == o.num_assigned - 1
        &&& self.asg() == o.asg().update(v, None)
        &&& self.lv() == o.lv().update(v, 0)
        &&& self.antecedents@ == o.antecedents@.update(v, None)
        &&& self.phases@ == o.phases@.update(v, o.asg()[v]->0)
        &&& self.frequencies@ == o.frequencies@.update(v, o.frequencies_cache@[v])
        &&& self.frequencies_cache == o.frequencies_cache
        &&& self.trail@ == o.trail@.drop_last()
        &&& self.trail_pos == o.trail_pos
        &&& self.input == o.input
        &&& self.learnt_sets == o.learnt_sets
        &&& self.conflicts == o.conflicts
        &&& self.restarts == o.restarts
        &&& self.next_restart == o.next_restart
        &&& self.luby == o.luby
        &&& self.propagations == o.propagations
    }

    /// What holds while `backtrack` unwinds the trail down to level `b`.
    spec fn unwinding(&self, b: int) -> bool {
        &&& self.wf_sizes()
        &&& self.wf_clauses()
        &&& self.wf_trail()
        &&& self.wf_vars()
        &&& self.wf_reasons()
        &&& self.wf_zero()
        &&& self.wf_fix_below(b)
        &&& self.wf_sets()
        &&& 0 <= b <= self.decision_level
    }

    /// Unassigns the last variable of the trail, saving its phase and
    /// restoring its activity.
    #[verifier::spinoff_prover]
    fn unassign_last(&mut self, Ghost(b): Ghost<int>)
        requires
            old(self).unwinding(b),
            old(self).trail@.len() > 0,
            old(self).lv()[old(self).trail@.last() as int] > b,
        ensures
            final(self).unwinding(b),
            final(self).popped_from(*old(self)),
    {
        proof {
            reveal(Solver::wf_sizes);
            reveal(Solver::wf_trail);
        }
        let var = self.trail[self.trail.len() - 1];
        proof {
            assert(self.trail@[self.trail@.len() - 1] == self.trail@.last());
        }
        if let Some(value) = self.assignments[var] {
            self.phases.set(var, value);
        }
        self.assignments.set(var, None);
        self.antecedents.set(var, None);
        self.frequencies.set(var, self.frequencies_cache[var]);
        self.decision_levels.set(var, 0);
        self.num_assigned = self.num_assigned - 1;
        self.trail.pop();
        proof {
            lemma_pop_wf(*old(self), *self, b);
        }
    }

    /// The last assignment of the trail was made above level `b`.
    #[verifier::spinoff_prover]
    fn top_above(&self, b: DecisionLevel) -> (r: bool)
        requires
            self.wf_sizes(),
            self.wf_trail(),
        ensures
            r == (self.trail@.len() > 0 && self.lv()[self.trail@.last() as int] > b),
    {
        proof {
            reveal(Solver::wf_sizes);
            reveal(Solver::wf_trail);
        }
        if self.trail.len() == 0 {
            false
        } else {
            let top = self.trail[self.trail.len() - 1];
            proof {
                assert(self.trail@[self.trail@.len() - 1] == self.trail@.last());
            }
            self.decision_levels[top] > b
        }
    }

    /// Unassigns every variable whose decision level exceeds `b`, and makes
    /// `b` the current level.
    #[verifier::spinoff_prover]
    fn backtrack(&mut self, b: DecisionLevel)
        requires
            old(self).wf(),
            b <= old(self).decision_level,
            b > 0 ==> exists|v: int| 1 <= v <= old(self).n() && (#[trigger] old(self).asg()[v]) is Some && old(self).lv()[v] == b,
        ensures
            final(self).wf(),
            final(self).backtracked_from(*old(self), b as int),
    {
        proof {
            lemma_bt_init(*old(self), b as int);
        }
        while self.top_above(b)
            invariant
                bt_inv(*old(self), *self, b as int),
            decreases self.trail@.len(),
        {
            let ghost before = *self;
            self.unassign_last(Ghost(b as int));
            proof {
                lemma_bt_step(*old(self), before, *self, b as int);
            }
        }
        let ghost pre = *self;
        self.decision_level = b;
        proof {
            lemma_bt_done(*old(self), pre, *self, b as int);
        }
    }

    /// `self` is `o` after backtracking to level `b`.
    spec fn backtracked_from(&self, o: Solver, b: int) -> bool {
        &&& self.backtracked_values(o, b)
        &&& self.backtracked_fields(o, b)
    }

    /// Values and levels after backtracking from `o` to level `b`.
    spec fn backtracked_values(&self, o: Solver, b: int) -> bool {
        &&& self.decision_level == b
        &&& self.clauses == o.clauses
        &&& self.num_vars == o.num_vars
        &&& self.input == o.input
        &&& self.learnt_sets == o.learnt_sets
        &&& self.conflicts == o.conflicts
        &&& self.restarts == o.restarts
        &&& self.next_restart == o.next_restart
        &&& self.luby == o.luby
        &&& forall|v: int| 0 <= v <= o.n() ==> #[trigger] self.asg()[v] == if o.lv()[v] <= b {
            o.asg()[v]
        } else {
            None
        }
        &&& forall|v: int| 0 <= v <= o.n() && o.lv()[v] <= b ==> #[trigger] self.lv()[v] == o.lv()[v]
    }

    /// Reasons, phases and activity after backtracking from `o` to level `b`.
    spec fn backtracked_fields(&self, o: Solver, b: int) -> bool {
        &&& self.frequencies_cache == o.frequencies_cache
        &&& self.propagations == o.propagations
        &&& self.antecedents@.len() == o.antecedents@.len()
        &&& self.phases@.len() == o.phases@.len()
        &&& self.frequencies@.len() == o.frequencies@.len()
        &&& forall|v: int| 0 <= v <= o.n() && o.lv()[v] <= b ==> {
            &&& #[trigger] self.antecedents@[v] == o.antecedents@[v]
            &&& self.phases@[v] == o.phases@[v]
            &&& self.frequencies@[v] == o.frequencies@[v]
        }
        &&& forall|v: int| 0 <= v <= o.n() && o.lv()[v] > b ==> {
            &&& #[trigger] self.antecedents@[v] is None
            &&& self.phases@[v] == o.asg()[v]->0
            &&& self.frequencies@[v] == self.frequencies_cache@[v]
        }
    }

    /// Classifies clause `ci` under the current assignment.
    #[verifier::spinoff_prover]
    fn clause_state(&self, ci: usize) -> (r: ClauseState)
        requires
            self.wf(),
            ci < self.clauses@.len(),
        ensures
            ({
                let c = self.clauses@[ci as int]@;
                match r {
                    ClauseState::Satisfied => exists|q: int| 0 <= q < c.len() && is_true(self.asg(), #[trigger] c[q]),
                    ClauseState::Open => exists|q1: int, q2: int|
                        0 <= q1 < c.len() && 0 <= q2 < c.len() && q1 != q2 && self.asg()[(#[trigger] c[q1]).var_spec() as int] is None
                            && self.asg()[(#[trigger] c[q2]).var_spec() as int] is None,
                    ClauseState::Unit(l) => {
                        &&& exists|q: int| 0 <= q < c.len() && #[trigger] c[q] == l
                        &&& self.asg()[l.var_spec() as int] is None
                        &&& forall|q: int| 0 <= q < c.len() ==> #[trigger] c[q] == l || is_false(self.asg(), c[q])
                    },
                    ClauseState::Conflict => forall|q: int| 0 <= q < c.len() ==> is_false(self.asg(), #[trigger] c[q]),
                }
            }),
    {
        proof {
            reveal(Solver::wf_sizes);
            reveal(Solver::wf_clauses);
        }
        let clause = &self.clauses[ci];
        let ghost c = clause@;
        assert(c == self.clauses@[ci as int]@);
        assert(clause_in_range(c, self.n()));
        let mut unassigned: Option<Lit> = None;
        let mut q0: usize = 0;
        let mut q: usize = 0;
        while q < clause.len()
            invariant
                self.wf_sizes(),
                c == clause@,
                ci < self.clauses@.len(),
                c == self.clauses@[ci as int]@,
                clause_in_range(c, self.n()),
                q <= c.len(),
                match unassigned {
                    None => forall|k: int| 0 <= k < q ==> is_false(self.asg(), #[trigger] c[k]),
                    Some(l) => {
                        &&& q0 < q
                        &&& c[q0 as int] == l
                        &&& self.asg()[l.var_spec() as int] is None
                        &&& forall|k: int| 0 <= k < q && k != q0 ==> is_false(self.asg(), #[trigger] c[k])
                    },
                },
            decreases c.len() - q,
        {
            proof {
                reveal(Solver::wf_sizes);
            }
            let lit = clause[q];
            assert(1 <= c[q as int].var_spec() <= self.n());
            match self.assignments[lit.var()] {
                Some(value) => {
                    if value == lit.as_bool() {
                        assert(is_true(self.asg(), c[q as int]));
                        return ClauseState::Satisfied;
                    }
                },
                None => {
                    if unassigned.is_some() {
                        assert(self.asg()[c[q0 as int].var_spec() as int] is None);
                        assert(self.asg()[c[q as int].var_spec() as int] is None);
                        return ClauseState::Open;
                    }
                    unassigned = Some(lit);
                    q0 = q;
                },
            }
            q = q + 1;
        }
        match unassigned {
            None => ClauseState::Conflict,
            Some(l) => ClauseState::Unit(l),
        }
    }

    /// `self` is `o` after more unit propagation at the same level.
    spec fn propagated_from(&self, o: Solver) -> bool {
        &&& self.clauses == o.clauses
        &&& self.decision_level == o.decision_level
        &&& self.num_vars == o.num_vars
        &&& self.input == o.input
        &&& self.learnt_sets == o.learnt_sets
        &&& self.conflicts == o.conflicts
        &&& self.restarts == o.restarts
        &&& self.next_restart == o.next_restart
        &&& self.luby == o.luby
        &&& self.trail@.len() >= o.trail@.len()
        &&& forall|p: int| 0 <= p < o.trail@.len() ==> #[trigger] self.trail@[p] == o.trail@[p]
        &&& forall|v: int|
            0 <= v <= o.n() && (#[trigger] o.asg()[v]) is Some ==> {
                &&& self.asg()[v] == o.asg()[v]
                &&& self.lv()[v] == o.lv()[v]
                &&& self.antecedents@[v] == o.antecedents@[v]
            }
        &&& forall|v: int|
            0 <= v <= o.n() && o.asg()[v] is None && (#[trigger] self.asg()[v]) is Some ==> {
                &&& self.lv()[v] == o.decision_level
                &&& self.antecedents@[v] is Some
                &&& self.frequencies@[v] == -1
            }
    }

    /// Assigns unit literals, scanning the clauses in order, until no clause is
    /// unit (`Ok`) or some clause is falsified (`Err` with its index).
    #[verifier::spinoff_prover]
    fn unit_propagate(&mut self) -> (r: Result<(), ClauseId>)
        requires
            old(self).wf(),
        ensures
            final(self).wf(),
            final(self).propagated_from(*old(self)),
            match r {
                Ok(()) => forall|c: int|
                    0 <= c < final(self).clauses@.len() ==> #[trigger] open_at(
                        final(self).asg(),
                        final(self).lv(),
                        final(self).clauses@[c]@,
                        final(self).decision_level as int,
                    ),
                Err(ci) => {
                    &&& ci < final(self).clauses@.len()
                    &&& forall|q: int|
                        0 <= q < final(self).clauses@[ci as int]@.len() ==> is_false(
                            final(self).asg(),
                            #[trigger] final(self).clauses@[ci as int]@[q],
                        )
                    &&& forall|c: int|
                        0 <= c < ci ==> #[trigger] open_at(
                            final(self).asg(),
                            final(self).lv(),
                            final(self).clauses@[c]@,
                            final(self).decision_level as int,
                        )
                },
            },
    {
        proof {
            lemma_propagated_refl(*self);
        }
        loop
            invariant
                self.wf(),
                self.propagated_from(*old(self)),
            decreases self.n() - self.trail@.len(),
        {
            proof {
                lemma_trail_bound(*self);
            }
            let mut ci: usize = 0;
            let mut unit: Option<(Lit, usize)> = None;
            while ci < self.clauses.len()
                invariant_except_break
                    unit is None,
                invariant
                    self.wf(),
                    self.propagated_from(*old(self)),
                    ci <= self.clauses@.len(),
                    forall|c: int|
                        0 <= c < ci ==> #[trigger] open_at(
                            self.asg(),
                            self.lv(),
                            self.clauses@[c]@,
                            self.decision_level as int,
                        ),
                ensures
                    self.wf(),
                    self.propagated_from(*old(self)),
                    match unit {
                        None => forall|c: int|
                            0 <= c < self.clauses@.len() ==> #[trigger] open_at(
                                self.asg(),
                                self.lv(),
                                self.clauses@[c]@,
                                self.decision_level as int,
                            ),
                        Some((l, c)) => {
                            &&& c < self.clauses@.len()
                            &&& exists|q: int| 0 <= q < self.clauses@[c as int]@.len() && #[trigger] self.clauses@[c as int]@[q] == l
                            &&& self.asg()[l.var_spec() as int] is None
                            &&& forall|q: int| 0 <= q < self.clauses@[c as int]@.len() ==> #[trigger] self.clauses@[c as int]@[q] == l || is_false(self.asg(), self.clauses@[c as int]@[q])
                        },
                    },
                decreases self.clauses@.len() - ci,
            {
                match self.clause_state(ci) {
                    ClauseState::Conflict => {
                        return Err(ci);
                    },
                    ClauseState::Unit(l) => {
                        unit = Some((l, ci));
                        break;
                    },
                    _ => {
                        proof {
                            lemma_skipped_open(*self, ci as int);
                        }
                        ci = ci + 1;
                    },
                }
            }
            match unit {
                None => {
                    return Ok(());
                },
                Some((l, c)) => {
                    proof {
                        lemma_unit_pre(*self, c, l);
                    }
                    let ghost before = *self;
                    self.assign(l, Some(c));
                    proof {
                        lemma_propagated_step(*old(self), before, *self, l, c);
                    }
                    let ghost pre = *self;
                    if self.propagations < u64::MAX {
                        self.propagations = self.propagations + 1;
                    }
                    proof {
                        lemma_same_core(pre, *self);
                        lemma_trail_bound(*self);
                    }
                },
            }
        }
    }

    /// `c` is a clause met during conflict analysis: sorted, every literal
    /// false and assigned before trail position `i`, and implied by the input.
    spec fn learnt_ok(&self, c: Seq<Lit>, i: int) -> bool {
        &&& strictly_sorted(c)
        &&& clause_in_range(c, self.n())
        &&& forall|q: int| 0 <= q < c.len() ==> is_false(self.asg(), #[trigger] c[q])
        &&& forall|q: int| 0 <= q < c.len() ==> self.trail_pos@[(#[trigger] c[q]).var_spec() as int] < i
        &&& implied(c, self.n(), self.input@)
    }

    /// `l` was assigned at the current decision level.
    spec fn at_level(&self, l: Lit) -> bool {
        self.lv()[l.var_spec() as int] == self.decision_level
    }

    /// Counts the literals of `c` assigned at the current decision level.
    #[verifier::spinoff_prover]
    fn count_at_level(&self, c: &Clause) -> (k: usize)
        requires
            self.wf(),
            clause_in_range(c@, self.n()),
        ensures
            k == 0 ==> forall|q: int| 0 <= q < c@.len() ==> !self.at_level(#[trigger] c@[q]),
            k == 1 ==> exists|q: int| 0 <= q < c@.len() && self.at_level(#[trigger] c@[q]) && forall|p: int|
                0 <= p < c@.len() && p != q ==> !self.at_level(#[trigger] c@[p]),
            k >= 2 ==> exists|q1: int, q2: int|
                0 <= q1 < c@.len() && 0 <= q2 < c@.len() && q1 != q2 && self.at_level(#[trigger] c@[q1])
                    && self.at_level(#[trigger] c@[q2]),
    {
        proof {
            reveal(Solver::wf_sizes);
        }
        let mut k: usize = 0;
        let mut q: usize = 0;
        let ghost mut q1: int = 0;
        let ghost mut q2: int = 0;
        while q < c.len()
            invariant
                self.wf_sizes(),
                clause_in_range(c@, self.n()),
                q <= c@.len(),
                k <= q,
                k == 0 ==> forall|p: int| 0 <= p < q ==> !self.at_level(#[trigger] c@[p]),
                k >= 1 ==> 0 <= q1 < q && self.at_level(c@[q1]),
                k == 1 ==> forall|p: int| 0 <= p < q && p != q1 ==> !self.at_level(#[trigger] c@[p]),
                k >= 2 ==> 0 <= q2 < q && q1 != q2 && self.at_level(c@[q2]),
            decreases c@.len() - q,
        {
            proof {
                reveal(Solver::wf_sizes);
            }
            let var = c[q].var();
            assert(1 <= c@[q as int].var_spec() <= self.n());
            if self.decision_levels[var] == self.decision_level {
                proof {
                    if k == 0 {
                        q1 = q as int;
                    } else if k == 1 {
                        q2 = q as int;
                    }
                }
                k = k + 1;
            }
            q = q + 1;
        }
        k
    }

    /// Whether some literal of `c` is on variable `var`.
    #[verifier::spinoff_prover]
    fn occurs(c: &Clause, var: VarId) -> (r: bool)
        ensures
            r == exists|q: int| 0 <= q < c@.len() && (#[trigger] c@[q]).var_spec() == var,
    {
        let mut q: usize = 0;
        while q < c.len()
            invariant
                q <= c@.len(),
                forall|p: int| 0 <= p < q ==> (#[trigger] c@[p]).var_spec() != var,
            decreases c@.len() - q,
        {
            if c[q].var() == var {
                return true;
            }
            q = q + 1;
        }
        false
    }

    /// The latest trail position below `i` whose variable occurs in `c`.
    #[verifier::spinoff_prover]
    fn latest_in(&self, c: &Clause, i: usize) -> (j: usize)
        requires
            self.wf(),
            c@.len() > 0,
            i <= self.trail@.len(),
            self.learnt_ok(c@, i as int),
        ensures
            j < i,
            exists|q: int| 0 <= q < c@.len() && (#[trigger] c@[q]).var_spec() == self.trail@[j as int],
            forall|q: int| 0 <= q < c@.len() ==> self.trail_pos@[(#[trigger] c@[q]).var_spec() as int] <= j,
    {
        let mut j: usize = i;
        while j > 0
            invariant
                j <= i,
                i <= self.trail@.len(),
                c@.len() > 0,
                self.wf(),
                self.learnt_ok(c@, i as int),
                forall|q: int| 0 <= q < c@.len() ==> self.trail_pos@[(#[trigger] c@[q]).var_spec() as int] < j,
            decreases j,
        {
            j = j - 1;
            let v = self.trail[j];
            if Solver::occurs(c, v) {
                proof {
                    assert forall|q: int| 0 <= q < c@.len() implies self.trail_pos@[(#[trigger] c@[q]).var_spec() as int] <= j by {
                    }
                }
                return j;
            }
            proof {
                reveal(Solver::wf_trail);
                reveal(Solver::wf_clauses);
                reveal(Solver::wf_sizes);
                assert forall|q: int| 0 <= q < c@.len() implies self.trail_pos@[(#[trigger] c@[q]).var_spec() as int] < j by {
                    let w = c@[q].var_spec() as int;
                    assert(is_false(self.asg(), c@[q]));
                    assert(1 <= w <= self.n());
                    assert(self.trail@[self.trail_pos@[w] as int] == w);
                    if self.trail_pos@[w] == j {
                        assert(w == v);
                    }
                }
            }
        }
        proof {
            assert(self.trail_pos@[c@[0].var_spec() as int] < 0);
        }
        0
    }

    /// Conflict analysis: resolves the falsified clause `ci` with the
    /// antecedents of its latest literals at the current level until one
    /// literal at that level is left (the first unique implication point).
    #[verifier::spinoff_prover]
    fn derive_1uip_clause(&self, ci: ClauseId) -> (learnt: Clause)
        requires
            self.wf(),
            self.decision_level >= 1,
            ci < self.clauses@.len(),
            forall|q: int| 0 <= q < self.clauses@[ci as int]@.len() ==> is_false(self.asg(), #[trigger] self.clauses@[ci as int]@[q]),
        ensures
            self.learnt_ok(learnt@, self.trail@.len() as int),
            exists|q: int| 0 <= q < learnt@.len() && self.at_level(#[trigger] learnt@[q]) && forall|p: int|
                0 <= p < learnt@.len() && p != q ==> !self.at_level(#[trigger] learnt@[p]),
    {
        let mut learnt = canonical(&self.clauses[ci]);
        proof {
            lemma_initial_learnt(*self, ci as int, learnt@);
        }
        let mut i: usize = self.trail.len();
        loop
            invariant
                self.wf(),
                self.decision_level >= 1,
                i <= self.trail@.len(),
                self.learnt_ok(learnt@, i as int),
                exists|q: int| 0 <= q < learnt@.len() && self.at_level(#[trigger] learnt@[q]),
            decreases i,
        {
            let k = self.count_at_level(&learnt);
            if k <= 1 {
                proof {
                    assert forall|q: int| 0 <= q < learnt@.len() implies self.trail_pos@[(#[trigger] learnt@[q]).var_spec() as int] < self.trail@.len() by {}
                }
                return learnt;
            }
            let j = self.latest_in(&learnt, i);
            let v = self.trail[j];
            proof {
                lemma_resolvent_var(*self, learnt@, i as int, j as int);
            }
            let reason = match self.antecedents[v] {
                Some(c) => c,
                None => {
                    proof {
                        assert(false);
                    }
                    return learnt;
                },
            };
            let next = resolve(&learnt, &self.clauses[reason], v);
            proof {
                lemma_resolve_step(*self, learnt@, i as int, j as int, next@);
            }
            learnt = next;
            i = j;
        }
    }

    /// The highest decision level below the current one among the literals
    /// of `learnt`, or 0.
    #[verifier::spinoff_prover]
    fn backtrack_level(&self, learnt: &Clause) -> (b: DecisionLevel)
        requires
            self.wf(),
            clause_in_range(learnt@, self.n()),
            forall|q: int| 0 <= q < learnt@.len() ==> self.lv()[(#[trigger] learnt@[q]).var_spec() as int] <= self.decision_level,
        ensures
            b < self.decision_level || b == 0,
            forall|q: int| 0 <= q < learnt@.len() && !self.at_level(#[trigger] learnt@[q]) ==> self.lv()[learnt@[q].var_spec() as int] <= b,
            b > 0 ==> exists|q: int| 0 <= q < learnt@.len() && self.lv()[(#[trigger] learnt@[q]).var_spec() as int] == b,
    {
        proof {
            reveal(Solver::wf_sizes);
        }
        let mut b: DecisionLevel = 0;
        let mut q: usize = 0;
        while q < learnt.len()
            invariant
                self.wf_sizes(),
                clause_in_range(learnt@, self.n()),
                q <= learnt@.len(),
                forall|p: int| 0 <= p < learnt@.len() ==> self.lv()[(#[trigger] learnt@[p]).var_spec() as int] <= self.decision_level,
                b < self.decision_level || b == 0,
                forall|p: int| 0 <= p < q && !self.at_level(#[trigger] learnt@[p]) ==> self.lv()[learnt@[p].var_spec() as int] <= b,
                b > 0 ==> exists|p: int| 0 <= p < q && self.lv()[(#[trigger] learnt@[p]).var_spec() as int] == b,
            decreases learnt@.len() - q,
        {
            proof {
                reveal(Solver::wf_sizes);
            }
            assert(1 <= learnt@[q as int].var_spec() <= self.n());
            let level = self.decision_levels[learnt[q].var()];
            if level < self.decision_level && level > b {
                b = level;
            }
            q = q + 1;
        }
        b
    }

    /// Adds a learnt clause, which is open below the current level and new.
    #[verifier::spinoff_prover]
    fn learn(&mut self, learnt: Clause)
        requires
            old(self).wf(),
            clause_in_range(learnt@, old(self).n()),
            strictly_sorted(learnt@),
            implied(learnt@, old(self).n(), old(self).input@),
            forall|j: int| 0 <= j < old(self).decision_level ==> #[trigger] open_at(old(self).asg(), old(self).lv(), learnt@, j),
            !old(self).learnt_sets@.contains(codes(learnt@)),
        ensures
            final(self).wf(),
            final(self).learnt_sets@ == old(self).learnt_sets@.insert(codes(learnt@)),
            final(self).decision_level == old(self).decision_level,
            final(self).num_vars == old(self).num_vars,
            final(self).input == old(self).input,
            final(self).conflicts == old(self).conflicts,
            final(self).restarts == old(self).restarts,
            final(self).next_restart == old(self).next_restart,
            final(self).luby == old(self).luby,
            final(self).trail == old(self).trail,
            final(self).clauses@ == old(self).clauses@.push(learnt),
            final(self).assignments == old(self).assignments,
            final(self).decision_levels == old(self).decision_levels,
            final(self).antecedents == old(self).antecedents,
            final(self).phases == old(self).phases,
            final(self).propagations == old(self).propagations,
            forall|v: int| 0 <= v <= old(self).n() ==> #[trigger] final(self).frequencies_cache@[v] == bumped(old(self).frequencies_cache@[v], occurrences(learnt@, v)),
    {
        let ghost cv = learnt@;
        self.push_clause(learnt);
        let ghost mid = *self;
        self.learnt_sets = Ghost(self.learnt_sets@.insert(codes(cv)));
        proof {
            assert(mid.clauses@.last() == mid.clauses@[mid.clauses@.len() - 1]);
            assert(mid.clauses@ =~= old(self).clauses@.push(mid.clauses@.last()));
            lemma_learn_same(*old(self), mid, *self, cv);
            lemma_learn_clauses(*old(self), mid, *self, cv);
            lemma_learn_sets(*old(self), mid, *self, cv);
        }
    }

    /// Learns the first-UIP clause of the falsified clause `ci` and jumps
    /// back to the second-highest level among its literals.
    #[verifier::spinoff_prover]
    fn conflict_analysis(&mut self, ci: ClauseId)
        requires
            old(self).wf(),
            old(self).decision_level >= 1,
            ci < old(self).clauses@.len(),
            forall|q: int| 0 <= q < old(self).clauses@[ci as int]@.len() ==> is_false(old(self).asg(), #[trigger] old(self).clauses@[ci as int]@[q]),
        ensures
            final(self).wf(),
            final(self).learnt_sets@.len() == old(self).learnt_sets@.len() + 1,
            final(self).num_vars == old(self).num_vars,
            final(self).input == old(self).input,
            final(self).conflicts == old(self).conflicts,
            final(self).restarts == old(self).restarts,
            final(self).next_restart == old(self).next_restart,
            final(self).luby == old(self).luby,
            final(self).propagations == old(self).propagations,
            final(self).learnt_after(*old(self)),
    {
        let learnt = self.derive_1uip_clause(ci);
        proof {
            reveal(Solver::wf_sizes);
            reveal(Solver::wf_trail);
            assert forall|q: int| 0 <= q < learnt@.len() implies self.lv()[(#[trigger] learnt@[q]).var_spec() as int] <= self.decision_level by {
                let w = learnt@[q].var_spec() as int;
                assert(is_false(self.asg(), learnt@[q]));
                assert(self.trail@[self.trail_pos@[w] as int] == w);
            }
        }
        let b = self.backtrack_level(&learnt);
        proof {
            lemma_learnt_new(*self, learnt@);
            lemma_sets_finite(*self);
        }
        let ghost pre = *self;
        proof {
            if b > 0 {
                let q = choose|q: int| 0 <= q < learnt@.len() && self.lv()[(#[trigger] learnt@[q]).var_spec() as int] == b;
                assert(is_false(self.asg(), learnt@[q]));
                assert(1 <= learnt@[q].var_spec() <= self.n());
            }
        }
        self.backtrack(b);
        proof {
            lemma_learnt_open(pre, *self, learnt@, b as int);
        }
        let ghost lc = learnt@;
        let ghost s1 = *self;
        self.learn(learnt);
        proof {
            lemma_learnt_after(*old(self), s1, *self, lc);
        }
    }

    /// `self` is `o` after conflict analysis: the first-UIP clause of the
    /// conflict is appended, the search jumps back to the highest level
    /// below the conflict level among its literals (or 0), where the clause
    /// is unit, and the assignments at or below that level are kept.
    spec fn learnt_after(&self, o: Solver) -> bool {
        let l = self.clauses@.last()@;
        let lvl = o.decision_level;
        let b = self.decision_level;
        &&& self.clauses@.len() == o.clauses@.len() + 1
        &&& forall|i: int| 0 <= i < o.clauses@.len() ==> #[trigger] self.clauses@[i] == o.clauses@[i]
        &&& implied(l, o.n(), o.input@)
        &&& forall|q: int| 0 <= q < l.len() ==> is_false(o.asg(), #[trigger] l[q])
        &&& exists|u: int| 0 <= u < l.len() && o.lv()[l[u].var_spec() as int] == lvl && forall|p: int|
            0 <= p < l.len() && p != u ==> o.lv()[(#[trigger] l[p]).var_spec() as int] < lvl
        &&& b < lvl
        &&& forall|q: int| 0 <= q < l.len() && o.lv()[(#[trigger] l[q]).var_spec() as int] < lvl ==> o.lv()[l[q].var_spec() as int] <= b
        &&& b > 0 ==> exists|q: int| 0 <= q < l.len() && o.lv()[(#[trigger] l[q]).var_spec() as int] == b
        &&& exists|u: int| 0 <= u < l.len() && self.asg()[l[u].var_spec() as int] is None && forall|p: int|
            0 <= p < l.len() && p != u ==> is_false(self.asg(), #[trigger] l[p])
        &&& forall|v: int| 0 <= v <= o.n() && o.lv()[v] <= b ==> {
            &&& #[trigger] self.asg()[v] == o.asg()[v]
            &&& self.lv()[v] == o.lv()[v]
            &&& self.antecedents@[v] == o.antecedents@[v]
        }
        &&& forall|v: int| 0 <= v <= o.n() ==> #[trigger] self.frequencies_cache@[v] == bumped(o.frequencies_cache@[v], occurrences(l, v))
    }

    /// Whether every variable is assigned.
    #[verifier::spinoff_prover]
    fn all_assigned(&self) -> (r: bool)
        requires
            self.wf(),
        ensures
            r == forall|v: int| 1 <= v <= self.n() ==> (#[trigger] self.asg()[v]) is Some,
    {
        proof {
            lemma_all_assigned_count(*self);
        }
        self.num_assigned == self.num_vars
    }

    /// The unassigned variable with the highest activity (the first such in
    /// index order), as a literal of its saved phase; `None` when every
    /// variable is assigned.
    #[verifier::spinoff_prover]
    fn choose_assignment(&self) -> (r: Option<Lit>)
        requires
            self.wf(),
        ensures
            r is None ==> forall|v: int| 1 <= v <= self.n() ==> (#[trigger] self.asg()[v]) is Some,
            r is Some ==> {
                let l = r->0;
                let v = l.var_spec() as int;
                &&& 1 <= v <= self.n()
                &&& self.asg()[v] is None
                &&& l.pol_spec() == self.phases@[v]
                &&& forall|u: int| 1 <= u <= self.n() && (#[trigger] self.asg()[u]) is None ==> self.frequencies@[u] <= self.frequencies@[v]
                &&& forall|u: int| 1 <= u < v && (#[trigger] self.asg()[u]) is None ==> self.frequencies@[u] < self.frequencies@[v]
            },
    {
        proof {
            reveal(Solver::wf_sizes);
        }
        let n = self.num_vars as usize;
        let mut best: Option<usize> = None;
        let mut v: usize = 1;
        while v <= n
            invariant
                self.wf_sizes(),
                n == self.n(),
                1 <= v <= n + 1,
                best is None ==> forall|u: int| 1 <= u < v ==> (#[trigger] self.asg()[u]) is Some,
                best is Some ==> {
                    let b = best->0 as int;
                    &&& 1 <= b < v
                    &&& self.asg()[b] is None
                    &&& forall|u: int| 1 <= u < v && (#[trigger] self.asg()[u]) is None ==> self.frequencies@[u] <= self.frequencies@[b]
                    &&& forall|u: int| 1 <= u < b && (#[trigger] self.asg()[u]) is None ==> self.frequencies@[u] < self.frequencies@[b]
                },
            decreases n + 1 - v,
        {
            proof {
                reveal(Solver::wf_sizes);
            }
            if self.assignments[v].is_none() {
                match best {
                    None => {
                        best = Some(v);
                    },
                    Some(b) => {
                        if self.frequencies[v] > self.frequencies[b] {
                            best = Some(v);
                        }
                    },
                }
            }
            v = v + 1;
        }
        match best {
            None => None,
            Some(b) => Some(Lit::from_var_pol(b, self.phases[b])),
        }
    }

    /// After a conflict: whether the restart threshold is reached; if so the
    /// next threshold is set a Luby multiple of `RESTART_SCALE` further.
    #[verifier::spinoff_prover]
    fn should_restart(&mut self) -> (r: bool)
        requires
            old(self).wf(),
        ensures
            final(self).wf(),
            r == (old(self).conflicts >= old(self).next_restart),
            same_core(*old(self), *final(self)),
            final(self).conflicts == old(self).conflicts,
            final(self).restarts == old(self).restarts,
            final(self).propagations == old(self).propagations,
            r ==> (final(self).luby.un_spec(), final(self).luby.vn_spec()) == luby_step(old(self).luby.un_spec(), old(self).luby.vn_spec()),
            r ==> final(self).next_restart == next_threshold(old(self).conflicts, old(self).luby.vn_spec()),
            !r ==> final(self).luby == old(self).luby && final(self).next_restart == old(self).next_restart,
    {
        let r = self.conflicts >= self.next_restart;
        if r {
            let l = self.luby.next();
            let step: u64 = if l > u64::MAX / RESTART_SCALE {
                u64::MAX
            } else {
                l * RESTART_SCALE
            };
            self.next_restart = if self.conflicts > u64::MAX - step {
                u64::MAX
            } else {
                self.conflicts + step
            };
        }
        proof {
            lemma_same_core(*old(self), *self);
        }
        r
    }

    /// Decides: opens a new level and sets `lit` true there.
    #[verifier::spinoff_prover]
    fn decide(&mut self, lit: Lit)
        requires
            old(self).wf(),
            forall|c: int| 0 <= c < old(self).clauses@.len() ==> #[trigger] open_at(
                old(self).asg(), old(self).lv(), old(self).clauses@[c]@, old(self).decision_level as int),
            1 <= lit.var_spec() <= old(self).n(),
            old(self).asg()[lit.var_spec() as int] is None,
        ensures
            final(self).wf(),
            final(self).trail@.len() == old(self).trail@.len() + 1,
            final(self).learnt_sets == old(self).learnt_sets,
            final(self).num_vars == old(self).num_vars,
            final(self).input == old(self).input,
            final(self).conflicts == old(self).conflicts,
            final(self).restarts == old(self).restarts,
            final(self).clauses == old(self).clauses,
    {
        proof {
            lemma_level_bound(*self);
            lemma_trail_bound(*self);
            reveal(Solver::wf_sizes);
        }
        let ghost pre = *self;
        self.decision_level = self.decision_level + 1;
        proof {
            lemma_decide_pre(pre, *self, lit);
        }
        self.assign(lit, None);
    }

    /// Runs the search. On `Sat` every variable is assigned and the
    /// assignment satisfies every clause given to `add_clause`; on `Unsat` no
    /// assignment satisfies them all.
    #[verifier::spinoff_prover]
    pub fn solve(&mut self) -> (r: SatResult)
        requires
            old(self).pristine(),
        ensures
            final(self).wf(),
            final(self).num_vars_spec() == old(self).num_vars_spec(),
            final(self).formula() == old(self).formula(),
            final(self).values().len() == final(self).num_vars_spec() + 1,
            r is Sat ==> forall|v: int| 1 <= v <= final(self).num_vars_spec() ==> (#[trigger] final(self).values()[v]) is Some,
            r is Sat ==> is_model(total(final(self).values()), final(self).num_vars_spec(), final(self).formula()),
            r is Unsat ==> forall|m: Seq<bool>| !is_model(m, old(self).num_vars_spec(), old(self).formula()),
            final(self).db().len() >= final(self).formula().len(),
            forall|i: int| 0 <= i < final(self).formula().len() ==> #[trigger] final(self).db()[i] == final(self).formula()[i],
            final(self).conflicts_spec() == learnt_count(final(self).db().len() - final(self).formula().len()),
    {
        proof {
            reveal(Solver::wf_sizes);
        }
        let ghost n = self.n();
        let ghost f = self.input@;
        match self.unit_propagate() {
            Err(ci) => {
                proof {
                    lemma_unsat_at_zero(*self, ci as int);
                    reveal(Solver::wf_sizes);
                    assert forall|m: Seq<bool>| !is_model(m, old(self).num_vars_spec(), old(self).formula()) by {
                        assert(!is_model(m, self.n(), self.input@));
                    }
                }
                proof {
                    lemma_db_prefix(*self);
                }
                return SatResult::Unsat;
            },
            Ok(()) => {},
        }
        loop
            invariant
                self.wf(),
                self.n() == n,
                self.input@ == f,
                self.num_vars == old(self).num_vars,
                self.input == old(self).input,
                self.clauses@.len() >= self.input@.len(),
                self.conflicts == learnt_count(self.clauses@.len() - self.input@.len()),
                forall|c: int| 0 <= c < self.clauses@.len() ==> #[trigger] open_at(
                    self.asg(), self.lv(), self.clauses@[c]@, self.decision_level as int),
            decreases pow2(2 * n) - self.learnt_sets@.len(), n - self.trail@.len(),
        {
            proof {
                lemma_trail_bound(*self);
                lemma_sets_bound(*self);
            }
            if self.all_assigned() {
                proof {
                    lemma_sat_when_full(*self);
                    reveal(Solver::wf_sizes);
                }
                proof {
                    lemma_db_prefix(*self);
                }
                return SatResult::Sat;
            }
            let lit = match self.choose_assignment() {
                None => {
                    proof {
                        assert(false);
                    }
                    proof {
                        lemma_db_prefix(*self);
                    }
                    return SatResult::Sat;
                },
                Some(l) => l,
            };
            let ghost sets0 = self.learnt_sets@.len();
            let ghost trail0 = self.trail@.len();
            self.decide(lit);
            loop
                invariant
                    self.wf(),
                    self.n() == n,
                    self.input@ == f,
                    self.num_vars == old(self).num_vars,
                    self.input == old(self).input,
                    self.clauses@.len() >= self.input@.len(),
                    self.conflicts == learnt_count(self.clauses@.len() - self.input@.len()),
                    self.learnt_sets@.len() > sets0 || (self.learnt_sets@.len() == sets0 && self.trail@.len() > trail0),
                ensures
                    self.wf(),
                    self.n() == n,
                    self.input@ == f,
                    self.num_vars == old(self).num_vars,
                    self.input == old(self).input,
                    self.clauses@.len() >= self.input@.len(),
                    self.conflicts == learnt_count(self.clauses@.len() - self.input@.len()),
                    self.learnt_sets@.len() > sets0 || (self.learnt_sets@.len() == sets0 && self.trail@.len() > trail0),
                    forall|c: int| 0 <= c < self.clauses@.len() ==> #[trigger] open_at(
                        self.asg(), self.lv(), self.clauses@[c]@, self.decision_level as int),
                decreases pow2(2 * n) - self.learnt_sets@.len(),
            {
                proof {
                    lemma_sets_bound(*self);
                }
                match self.unit_propagate() {
                    Ok(()) => {
                        break;
                    },
                    Err(ci) => {
                        if self.decision_level == 0 {
                            proof {
                                lemma_unsat_at_zero(*self, ci as int);
                                reveal(Solver::wf_sizes);
                                assert forall|m: Seq<bool>| !is_model(m, old(self).num_vars_spec(), old(self).formula()) by {
                                    assert(!is_model(m, self.n(), self.input@));
                                }
                            }
                            proof {
                                lemma_db_prefix(*self);
                            }
                            return SatResult::Unsat;
                        }
                        self.conflict_analysis(ci);
                        let ghost pre = *self;
                        if self.conflicts < u64::MAX {
                            self.conflicts = self.conflicts + 1;
                        }
                        proof {
                            lemma_same_core(pre, *self);
                        }
                        if self.should_restart() {
                            let ghost pre2 = *self;
                            if self.restarts < u64::MAX {
                                self.restarts = self.restarts + 1;
                            }
                            proof {
                                lemma_same_core(pre2, *self);
                            }
                            self.backtrack(0);
                        }
                        proof {
                            lemma_sets_bound(*self);
                        }
                    },
                }
            }
            proof {
                lemma_sets_bound(*self);
                lemma_trail_bound(*self);
            }
        }
    }

    #[verifier::spinoff_prover]
    pub fn num_vars(&self) -> (r: u32)
        ensures
            r == self.num_vars_spec(),
    {
        self.num_vars
    }

    /// Number of clauses in the database, learnt ones included.
    #[verifier::spinoff_prover]
    pub fn num_clauses(&self) -> (r: usize)
        ensures
            r == self.db().len(),
    {
        self.clauses.len()
    }

    /// Search counters: unit propagations, conflicts and restarts so far.
    #[verifier::spinoff_prover]
    pub fn stats(&self) -> (r: Stats)
        ensures
            r.propagations == self.propagations_spec(),
            r.conflicts == self.conflicts_spec(),
            r.restarts == self.restarts_spec(),
    {
        Stats { propagations: self.propagations, conflicts: self.conflicts, restarts: self.restarts }
    }

    pub closed spec fn propagations_spec(&self) -> u64 {
        self.propagations
    }

    pub closed spec fn conflicts_spec(&self) -> u64 {
        self.conflicts
    }

    pub closed spec fn restarts_spec(&self) -> u64 {
        self.restarts
    }

    /// The current assignment as DIMACS literals `v` or `-v` for each
    /// variable `v` in `1..=n`: positive when `v` is true. Meant for a
    /// complete assignment, as `solve` leaves on `Sat`.
    #[verifier::spinoff_prover]
    pub fn model(&self) -> (r: Vec<i32>)
        requires
            self.wf(),
        ensures
            r@ == model_dimacs(self.values(), self.num_vars_spec()),
    {
        proof {
            reveal(Solver::wf_sizes);
        }
        let mut r: Vec<i32> = Vec::new();
        let mut v: u32 = 1;
        while v <= self.num_vars
            invariant
                self.wf_sizes(),
                1 <= v <= self.num_vars + 1,
                r@.len() == v - 1,
                forall|i: int| 0 <= i < r@.len() ==> #[trigger] r@[i] == model_dimacs(self.values(), self.num_vars_spec())[i],
            decreases self.num_vars + 1 - v,
        {
            proof {
                reveal(Solver::wf_sizes);
            }
            let x: i32 = if self.assignments[v as usize] == Some(true) {
                v as i32
            } else {
                -(v as i32)
            };
            r.push(x);
            v = v + 1;
        }
        assert(r@ =~= model_dimacs(self.values(), self.num_vars_spec()));
        r
    }

    /// Every clause given to the solver names variables in `1..=n`, and
    /// `n` fits a literal.
    pub proof fn lemma_formula_in_range(&self)
        requires
            self.wf(),
        ensures
            self.num_vars_spec() <= MAX_VAR,
            forall|i: int| 0 <= i < self.formula().len() ==> clause_in_range(#[trigger] self.formula()[i], self.num_vars_spec()),
    {
        reveal(Solver::wf_sizes);
        reveal(Solver::wf_clauses);
        assert forall|i: int| 0 <= i < self.formula().len() implies clause_in_range(#[trigger] self.formula()[i], self.num_vars_spec()) by {
            assert(self.clauses@[i]@ == self.input@[i]);
        }
    }

    /// Decision level of each variable (index 0 unused).
    pub closed spec fn levels(&self) -> Seq<u32> {
        self.decision_levels@
    }

    /// Reason clause of each variable: `None` for decisions and unassigned
    /// variables.
    pub closed spec fn reasons(&self) -> Seq<Option<ClauseId>> {
        self.antecedents@
    }

    pub closed spec fn num_assigned_spec(&self) -> nat {
        self.num_assigned as nat
    }

    /// A solver that still takes clauses is well formed, has nothing
    /// assigned, is at level 0, has met no conflict, and holds exactly the
    /// clauses given to it.
    pub proof fn lemma_pristine(&self)
        requires
            self.pristine(),
        ensures
            self.wf(),
            self.num_assigned_spec() == 0,
            self.level() == 0,
            self.conflicts_spec() == 0,
            self.db() == self.formula(),
    {
        reveal(Solver::wf_trail);
        reveal(Solver::wf_clauses);
        assert(self.db() =~= self.formula());
    }

    /// Trail consistency: every variable with a positive decision level is
    /// assigned, and the count of assigned variables is exact.
    pub proof fn lemma_trail_consistency(&self)
        requires
            self.wf(),
        ensures
            self.values().len() == self.num_vars_spec() + 1,
            forall|v: int| 0 <= v <= self.num_vars_spec() && #[trigger] self.levels()[v] > 0 ==> self.values()[v] is Some,
            self.num_assigned_spec() == assigned_vars(self.values()).len(),
    {
        reveal(Solver::wf_sizes);
        reveal(Solver::wf_trail);
        reveal(Solver::wf_vars);
        let t = self.trail@;
        let ts = t.map_values(|x: VarId| x as int);
        assert forall|a: int, b: int| 0 <= a < ts.len() && 0 <= b < ts.len() && a != b implies #[trigger] ts[a] != #[trigger] ts[b] by {
            assert(self.trail_pos@[t[a] as int] == a && self.trail_pos@[t[b] as int] == b);
        }
        ts.unique_seq_to_set();
        assert forall|x: int| #[trigger] ts.to_set().contains(x) <==> assigned_vars(self.values()).contains(x) by {
            if ts.to_set().contains(x) {
                let p = choose|p: int| 0 <= p < ts.len() && ts[p] == x;
                assert(self.asg()[t[p] as int] is Some);
            }
            if assigned_vars(self.values()).contains(x) {
                assert(ts[self.trail_pos@[x] as int] == x);
            }
        }
        assert(ts.to_set() =~= assigned_vars(self.values()));
    }

    /// Antecedent soundness: the reason clause of an implied variable holds
    /// the variable's literal, and every other literal of it is false and
    /// was assigned at a level no higher than the variable's.
    pub proof fn lemma_antecedent_soundness(&self, v: int)
        requires
            self.wf(),
            1 <= v <= self.num_vars_spec(),
            self.values()[v] is Some,
            self.reasons()[v] is Some,
        ensures
            ({
                let c = self.reasons()[v]->0 as int;
                let own = Lit::of(v as nat, self.values()[v]->0);
                &&& 0 <= c < self.db().len()
                &&& exists|q: int| 0 <= q < self.db()[c].len() && (#[trigger] self.db()[c][q])@ == own
                &&& forall|q: int| 0 <= q < self.db()[c].len() && (#[trigger] self.db()[c][q])@ != own ==> {
                    &&& is_false(self.values(), self.db()[c][q])
                    &&& self.levels()[self.db()[c][q].var_spec() as int] <= self.levels()[v]
                }
            }),
    {
        reveal(Solver::wf_reasons);
        let c = self.reasons()[v]->0 as int;
        assert(self.reason_ok(v, c));
        assert(self.db()[c] == self.clauses@[c]@);
    }

    /// Antecedent soundness, for every implied variable at once.
    pub proof fn lemma_antecedents_sound(&self)
        requires
            self.wf(),
        ensures
            forall|v: int| 1 <= v <= self.num_vars_spec() && self.values()[v] is Some && (#[trigger] self.reasons()[v]) is Some ==> {
                let c = self.reasons()[v]->0 as int;
                let own = Lit::of(v as nat, self.values()[v]->0);
                &&& 0 <= c < self.db().len()
                &&& exists|q: int| 0 <= q < self.db()[c].len() && (#[trigger] self.db()[c][q])@ == own
                &&& forall|q: int| 0 <= q < self.db()[c].len() && (#[trigger] self.db()[c][q])@ != own ==> {
                    &&& is_false(self.values(), self.db()[c][q])
                    &&& self.levels()[self.db()[c][q].var_spec() as int] <= self.levels()[v]
                }
            },
    {
        assert forall|v: int| 1 <= v <= self.num_vars_spec() && self.values()[v] is Some && (#[trigger] self.reasons()[v]) is Some implies {
            let c = self.reasons()[v]->0 as int;
            let own = Lit::of(v as nat, self.values()[v]->0);
            &&& 0 <= c < self.db().len()
            &&& exists|q: int| 0 <= q < self.db()[c].len() && (#[trigger] self.db()[c][q])@ == own
            &&& forall|q: int| 0 <= q < self.db()[c].len() && (#[trigger] self.db()[c][q])@ != own ==> {
                &&& is_false(self.values(), self.db()[c][q])
                &&& self.levels()[self.db()[c][q].var_spec() as int] <= self.levels()[v]
            }
        } by {
            self.lemma_antecedent_soundness(v);
        }
    }

    /// Learnt-clause soundness: every clause of the database, learnt ones
    /// included, holds in every model of the input clauses.
    pub proof fn lemma_learnt_soundness(&self)
        requires
            self.wf(),
        ensures
            forall|i: int| 0 <= i < self.db().len() ==> implied(#[trigger] self.db()[i], self.num_vars_spec(), self.formula()),
    {
        reveal(Solver::wf_clauses);
        assert forall|i: int| 0 <= i < self.db().len() implies implied(#[trigger] self.db()[i], self.num_vars_spec(), self.formula()) by {
            assert(self.db()[i] == self.clauses@[i]@);
        }
    }
}

/// Open-ness at level `j` only depends on what the assignment says at levels
/// up to `j`.
#[verifier::rlimit(60)]
#[verifier::spinoff_prover]
proof fn lemma_open_at_same(
    asg1: Seq<Option<bool>>,
    lv1: Seq<u32>,
    asg2: Seq<Option<bool>>,
    lv2: Seq<u32>,
    c: Seq<Lit>,
    j: int,
)
    requires
        open_at(asg1, lv1, c, j),
        forall|q: int|
            0 <= q < c.len() ==> (true_at(asg1, lv1, #[trigger] c[q], j) == true_at(asg2, lv2, c[q], j))
                && (unset_at(asg1, lv1, c[q], j) == unset_at(asg2, lv2, c[q], j)),
    ensures
        open_at(asg2, lv2, c, j),
{
    if exists|q: int| 0 <= q < c.len() && true_at(asg1, lv1, #[trigger] c[q], j) {
        let q = choose|q: int| 0 <= q < c.len() && true_at(asg1, lv1, #[trigger] c[q], j);
        assert(true_at(asg2, lv2, c[q], j));
    } else {
        let (q1, q2) = choose|q1: int, q2: int|
            0 <= q1 < c.len() && 0 <= q2 < c.len() && q1 != q2 && unset_at(asg1, lv1, #[trigger] c[q1], j)
                && unset_at(asg1, lv1, #[trigger] c[q2], j);
        assert(unset_at(asg2, lv2, c[q1], j) && unset_at(asg2, lv2, c[q2], j));
    }
}

/// A trail of distinct variables of `1..=n` that misses `v` is shorter than `n`.
#[verifier::rlimit(60)]
#[verifier::spinoff_prover]
proof fn lemma_trail_short(t: Seq<VarId>, n: nat, pos: Seq<usize>, asg: Seq<Option<bool>>, v: int)
    requires
        1 <= v <= n,
        pos.len() == n + 1,
        asg.len() == n + 1,
        asg[v] is None,
        forall|p: int| 0 <= p < t.len() ==> 1 <= #[trigger] t[p] <= n && pos[t[p] as int] == p && asg[t[p] as int] is Some,
    ensures
        t.len() < n,
{
    let ts = t.map_values(|x: VarId| x as int);
    assert forall|a: int, b: int| 0 <= a < ts.len() && 0 <= b < ts.len() && a != b implies #[trigger] ts[a] != #[trigger] ts[b] by {
        assert(pos[t[a] as int] == a && pos[t[b] as int] == b);
    }
    assert(ts.no_duplicates());
    ts.unique_seq_to_set();
    let range = set_int_range(1, n as int + 1).remove(v);
    vstd::set_lib::lemma_int_range(1, n as int + 1);
    assert forall|x: int| #[trigger] ts.to_set().contains(x) implies range.contains(x) by {
        let p = choose|p: int| 0 <= p < ts.len() && ts[p] == x;
        assert(asg[t[p] as int] is Some);
    }
    vstd::set_lib::lemma_len_subset(ts.to_set(), range);
}

#[verifier::rlimit(80)]
#[verifier::spinoff_prover]
proof fn lemma_assign_trail(o: Solver, s: Solver, lit: Lit, reason: Option<ClauseId>)
    requires
        o.assign_pre(lit, reason),
        s.assigned_from(o, lit, reason),
    ensures
        s.wf_trail(),
        s.wf_top(),
{
    reveal(Solver::wf_sizes);
    reveal(Solver::wf_trail);
    reveal(Solver::wf_top);
    let var = lit.var_spec() as int;
    let n = o.n();
    let t = s.trail@;
    let old_len = o.trail@.len() as int;
    assert(t[old_len] == var);
    assert forall|p: int| 0 <= p < t.len() implies 1 <= #[trigger] t[p] <= n && s.trail_pos@[t[p] as int] == p
        && s.asg()[t[p] as int] is Some && s.lv()[t[p] as int] <= s.decision_level by {
        if p < old_len {
            assert(t[p] == o.trail@[p]);
        }
    }
    assert forall|v: int| 0 <= v <= n && (#[trigger] s.asg()[v]) is Some implies 1 <= v && s.trail_pos@[v]
        < t.len() && t[s.trail_pos@[v] as int] == v by {
        if v != var {
            assert(o.asg()[v] is Some);
        }
    }
    assert forall|p: int, q: int| 0 <= p < q < t.len() implies s.lv()[#[trigger] t[p] as int] <= s.lv()[#[trigger] t[q] as int] by {
        assert(t[p] == o.trail@[p]);
        if q < old_len {
            assert(t[q] == o.trail@[q]);
        }
    }
    assert forall|p: int| 0 < p < t.len() implies s.lv()[#[trigger] t[p] as int] <= s.lv()[t[p - 1] as int] + 1 by {
        assert(t[p - 1] == o.trail@[p - 1]);
        if p < old_len {
            assert(t[p] == o.trail@[p]);
        }
    }
    if old_len > 0 {
        assert(t[0] == o.trail@[0]);
        assert(o.trail@.last() == o.trail@[old_len - 1]);
    }
}

#[verifier::rlimit(60)]
#[verifier::spinoff_prover]
proof fn lemma_assign_reasons(o: Solver, s: Solver, lit: Lit, reason: Option<ClauseId>)
    requires
        o.assign_pre(lit, reason),
        s.assigned_from(o, lit, reason),
    ensures
        s.wf_reasons(),
{
    reveal(Solver::wf_sizes);
    reveal(Solver::wf_trail);
    reveal(Solver::wf_reasons);
    reveal(Solver::wf_clauses);
    let var = lit.var_spec() as int;
    let n = o.n();
    let old_len = o.trail@.len() as int;
    assert forall|v: int| 1 <= v <= n && (#[trigger] s.asg()[v]) is Some implies match s.antecedents@[v] {
        Some(c) => s.reason_ok(v, c as int),
        None => s.lv()[v] >= 1 && (s.trail_pos@[v] == 0 || s.lv()[s.trail@[s.trail_pos@[v] - 1] as int] < s.lv()[v]),
    } by {
        if v == var {
            match reason {
                Some(c) => {
                    let cl = s.clauses@[c as int]@;
                    assert(clause_in_range(cl, n));
                    let own = Lit::of(v as nat, s.asg()[v]->0);
                    let q0 = choose|q: int| 0 <= q < cl.len() && #[trigger] cl[q] == lit;
                    assert(cl[q0]@ == own);
                    assert forall|q: int| 0 <= q < cl.len() implies (#[trigger] cl[q])@ == own || {
                        &&& is_false(s.asg(), cl[q])
                        &&& s.trail_pos@[cl[q].var_spec() as int] < s.trail_pos@[v]
                        &&& s.lv()[cl[q].var_spec() as int] <= s.lv()[v]
                    } by {
                        if cl[q] != lit {
                            let w = cl[q].var_spec() as int;
                            assert(is_false(o.asg(), cl[q]));
                            assert(o.asg()[w] is Some);
                            assert(1 <= w <= n);
                            assert(o.trail@[o.trail_pos@[w] as int] == w);
                            assert(o.trail_pos@[w] < old_len);
                        }
                    }
                },
                None => {
                    if old_len > 0 {
                        assert(s.trail@[s.trail_pos@[v] - 1] == o.trail@.last());
                    }
                },
            }
        } else {
            assert(o.asg()[v] is Some);
            match s.antecedents@[v] {
                Some(c) => {
                    assert(o.reason_ok(v, c as int));
                    let cl = s.clauses@[c as int]@;
                    let own = Lit::of(v as nat, s.asg()[v]->0);
                    assert(exists|q: int| 0 <= q < cl.len() && (#[trigger] cl[q])@ == own);
                    assert forall|q: int| 0 <= q < cl.len() implies (#[trigger] cl[q])@ == own || {
                        &&& is_false(s.asg(), cl[q])
                        &&& s.trail_pos@[cl[q].var_spec() as int] < s.trail_pos@[v]
                        &&& s.lv()[cl[q].var_spec() as int] <= s.lv()[v]
                    } by {
                        if cl[q]@ != own {
                            assert(is_false(o.asg(), cl[q]));
                            assert(clause_in_range(cl, n));
                            assert(1 <= cl[q].var_spec() <= n);
                        }
                    }
                },
                None => {
                    assert(o.trail_pos@[v] < old_len);
                    if s.trail_pos@[v] > 0 {
                        assert(s.trail@[s.trail_pos@[v] - 1] == o.trail@[o.trail_pos@[v] - 1]);
                    }
                },
            }
        }
    }
}

#[verifier::rlimit(60)]
#[verifier::spinoff_prover]
proof fn lemma_assign_rest(o: Solver, s: Solver, lit: Lit, reason: Option<ClauseId>)
    requires
        o.assign_pre(lit, reason),
        s.assigned_from(o, lit, reason),
    ensures
        s.wf_sizes(),
        s.wf_clauses(),
        s.wf_vars(),
        s.wf_zero(),
        s.wf_fix_below(s.decision_level as int),
        s.wf_sets(),
{
    reveal(Solver::wf_sizes);
    reveal(Solver::wf_clauses);
    reveal(Solver::wf_vars);
    reveal(Solver::wf_zero);
    reveal(Solver::wf_fix_below);
    reveal(Solver::wf_sets);
    let var = lit.var_spec() as int;
    let n = o.n();
    assert forall|v: int| 0 <= v <= n implies {
        &&& (#[trigger] s.asg()[v]) is None ==> {
            &&& s.lv()[v] == 0
            &&& s.antecedents@[v] is None
            &&& s.frequencies@[v] == s.frequencies_cache@[v]
        }
        &&& s.asg()[v] is Some ==> s.frequencies@[v] == -1
        &&& s.frequencies_cache@[v] >= 0
    } by {
        if v != var {
            assert(o.asg()[v] == s.asg()[v]);
        }
    }
    assert forall|m: Seq<bool>| #[trigger] is_model(m, n, s.input@) implies forall|v: int|
        1 <= v <= n && (#[trigger] s.asg()[v]) is Some && s.lv()[v] == 0 ==> m[v] == s.asg()[v]->0 by {
        assert forall|v: int| 1 <= v <= n && (#[trigger] s.asg()[v]) is Some && s.lv()[v] == 0 implies m[v] == s.asg()[v]->0 by {
            if v != var {
                assert(o.asg()[v] is Some);
            } else {
                assert(reason is Some);
                assert(sat_lit(m, lit));
            }
        }
    }
    assert forall|c: int, j: int| 0 <= c < s.clauses@.len() && 0 <= j < s.decision_level implies #[trigger] open_at(
        s.asg(), s.lv(), s.clauses@[c]@, j) by {
        let cl = s.clauses@[c]@;
        assert(open_at(o.asg(), o.lv(), cl, j));
        assert(clause_in_range(cl, n));
        assert forall|q: int| 0 <= q < cl.len() implies (true_at(o.asg(), o.lv(), #[trigger] cl[q], j) == true_at(s.asg(), s.lv(), cl[q], j))
            && (unset_at(o.asg(), o.lv(), cl[q], j) == unset_at(s.asg(), s.lv(), cl[q], j)) by {
            assert(1 <= cl[q].var_spec() <= n);
        }
        lemma_open_at_same(o.asg(), o.lv(), s.asg(), s.lv(), cl, j);
    }
}

#[verifier::rlimit(60)]
#[verifier::spinoff_prover]
proof fn lemma_assign_wf(o: Solver, s: Solver, lit: Lit, reason: Option<ClauseId>)
    requires
        o.assign_pre(lit, reason),
        s.assigned_from(o, lit, reason),
    ensures
        s.wf(),
{
    lemma_assign_trail(o, s, lit, reason);
    lemma_assign_reasons(o, s, lit, reason);
    lemma_assign_rest(o, s, lit, reason);
}

#[verifier::rlimit(60)]
#[verifier::spinoff_prover]
proof fn lemma_pop_trail(o: Solver, s: Solver, b: int)
    requires
        o.unwinding(b),
        o.trail@.len() > 0,
        s.popped_from(o),
    ensures
        s.wf_trail(),
{
    reveal(Solver::wf_sizes);
    reveal(Solver::wf_trail);
    let n = o.n();
    let var = o.trail@.last() as int;
    let len = s.trail@.len() as int;
    assert(o.trail@[len] == var);
    assert(o.trail_pos@[var] == len);
    assert forall|p: int| 0 <= p < len implies 1 <= #[trigger] s.trail@[p] <= n && s.trail_pos@[s.trail@[p] as int] == p
        && s.asg()[s.trail@[p] as int] is Some && s.lv()[s.trail@[p] as int] <= s.decision_level by {
        assert(s.trail@[p] == o.trail@[p]);
        assert(o.trail@[p] != var);
    }
    assert forall|v: int| 0 <= v <= n && (#[trigger] s.asg()[v]) is Some implies 1 <= v && s.trail_pos@[v]
        < len && s.trail@[s.trail_pos@[v] as int] == v by {
        assert(o.asg()[v] is Some);
        assert(v != var);
        assert(o.trail@[o.trail_pos@[v] as int] == v);
    }
    assert forall|p: int, q: int| 0 <= p < q < len implies s.lv()[#[trigger] s.trail@[p] as int] <= s.lv()[#[trigger] s.trail@[q] as int] by {
        assert(s.trail@[p] == o.trail@[p] && s.trail@[q] == o.trail@[q]);
        assert(o.trail@[p] != var && o.trail@[q] != var);
    }
    assert forall|p: int| 0 < p < len implies s.lv()[#[trigger] s.trail@[p] as int] <= s.lv()[s.trail@[p - 1] as int] + 1 by {
        assert(s.trail@[p] == o.trail@[p] && s.trail@[p - 1] == o.trail@[p - 1]);
        assert(o.trail@[p] != var && o.trail@[p - 1] != var);
    }
    if len > 0 {
        assert(s.trail@[0] == o.trail@[0] && o.trail@[0] != var);
    }
}

#[verifier::rlimit(60)]
#[verifier::spinoff_prover]
proof fn lemma_pop_vars(o: Solver, s: Solver, b: int)
    requires
        o.unwinding(b),
        o.trail@.len() > 0,
        s.popped_from(o),
    ensures
        s.wf_sizes(),
        s.wf_vars(),
{
    reveal(Solver::wf_sizes);
    reveal(Solver::wf_trail);
    reveal(Solver::wf_vars);
    let n = o.n();
    let var = o.trail@.last() as int;
    assert(o.trail@[o.trail@.len() - 1] == var);
    assert forall|v: int| 0 <= v <= n implies {
        &&& (#[trigger] s.asg()[v]) is None ==> {
            &&& s.lv()[v] == 0
            &&& s.antecedents@[v] is None
            &&& s.frequencies@[v] == s.frequencies_cache@[v]
        }
        &&& s.asg()[v] is Some ==> s.frequencies@[v] == -1
        &&& s.frequencies_cache@[v] >= 0
    } by {
        if v != var {
            assert(o.asg()[v] == s.asg()[v]);
        }
    }
}

#[verifier::rlimit(60)]
#[verifier::spinoff_prover]
proof fn lemma_pop_reasons(o: Solver, s: Solver, b: int)
    requires
        o.unwinding(b),
        o.trail@.len() > 0,
        s.popped_from(o),
    ensures
        s.wf_reasons(),
{
    reveal(Solver::wf_sizes);
    reveal(Solver::wf_clauses);
    reveal(Solver::wf_trail);
    reveal(Solver::wf_reasons);
    let n = o.n();
    let var = o.trail@.last() as int;
    let len = s.trail@.len() as int;
    assert(o.trail@[len] == var);
    assert(o.trail_pos@[var] == len);
    assert forall|v: int| 1 <= v <= n && (#[trigger] s.asg()[v]) is Some implies match s.antecedents@[v] {
        Some(c) => s.reason_ok(v, c as int),
        None => s.lv()[v] >= 1 && (s.trail_pos@[v] == 0 || s.lv()[s.trail@[s.trail_pos@[v] - 1] as int] < s.lv()[v]),
    } by {
        assert(v != var);
        assert(o.asg()[v] is Some);
        assert(o.trail@[o.trail_pos@[v] as int] == v);
        let pv = o.trail_pos@[v] as int;
        assert(pv < len);
        match s.antecedents@[v] {
            Some(c) => {
                assert(o.reason_ok(v, c as int));
                let cl = s.clauses@[c as int]@;
                let own = Lit::of(v as nat, s.asg()[v]->0);
                assert(clause_in_range(cl, n));
                assert(exists|q: int| 0 <= q < cl.len() && (#[trigger] cl[q])@ == own);
                assert forall|q: int| 0 <= q < cl.len() implies (#[trigger] cl[q])@ == own || {
                    &&& is_false(s.asg(), cl[q])
                    &&& s.trail_pos@[cl[q].var_spec() as int] < s.trail_pos@[v]
                    &&& s.lv()[cl[q].var_spec() as int] <= s.lv()[v]
                } by {
                    if cl[q]@ != own {
                        let w = cl[q].var_spec() as int;
                        assert(1 <= w <= n);
                        assert(o.asg()[w] is Some);
                        assert(w != var);
                    }
                }
            },
            None => {
                if pv > 0 {
                    assert(s.trail@[pv - 1] == o.trail@[pv - 1]);
                    assert(o.trail@[pv - 1] != var);
                }
            },
        }
    }
}

#[verifier::rlimit(60)]
#[verifier::spinoff_prover]
proof fn lemma_pop_rest(o: Solver, s: Solver, b: int)
    requires
        o.unwinding(b),
        o.trail@.len() > 0,
        o.lv()[o.trail@.last() as int] > b,
        s.popped_from(o),
    ensures
        s.wf_clauses(),
        s.wf_zero(),
        s.wf_fix_below(b),
        s.wf_sets(),
{
    reveal(Solver::wf_sizes);
    reveal(Solver::wf_clauses);
    reveal(Solver::wf_trail);
    reveal(Solver::wf_zero);
    reveal(Solver::wf_fix_below);
    reveal(Solver::wf_sets);
    let n = o.n();
    let var = o.trail@.last() as int;
    assert(o.trail@[o.trail@.len() - 1] == var);
    assert(1 <= var <= n);
    assert forall|m: Seq<bool>| #[trigger] is_model(m, n, s.input@) implies forall|v: int|
        1 <= v <= n && (#[trigger] s.asg()[v]) is Some && s.lv()[v] == 0 ==> m[v] == s.asg()[v]->0 by {
        assert forall|v: int| 1 <= v <= n && (#[trigger] s.asg()[v]) is Some && s.lv()[v] == 0 implies m[v] == s.asg()[v]->0 by {
            assert(o.asg()[v] is Some);
        }
    }
    assert forall|c: int, j: int| 0 <= c < s.clauses@.len() && 0 <= j < b implies #[trigger] open_at(
        s.asg(), s.lv(), s.clauses@[c]@, j) by {
        let cl = s.clauses@[c]@;
        assert(open_at(o.asg(), o.lv(), cl, j));
        assert(clause_in_range(cl, n));
        assert forall|q: int| 0 <= q < cl.len() implies (true_at(o.asg(), o.lv(), #[trigger] cl[q], j) == true_at(s.asg(), s.lv(), cl[q], j))
            && (unset_at(o.asg(), o.lv(), cl[q], j) == unset_at(s.asg(), s.lv(), cl[q], j)) by {
            assert(1 <= cl[q].var_spec() <= n);
        }
        lemma_open_at_same(o.asg(), o.lv(), s.asg(), s.lv(), cl, j);
    }
}

#[verifier::rlimit(60)]
#[verifier::spinoff_prover]
proof fn lemma_pop_wf(o: Solver, s: Solver, b: int)
    requires
        o.unwinding(b),
        o.trail@.len() > 0,
        o.lv()[o.trail@.last() as int] > b,
        s.popped_from(o),
    ensures
        s.unwinding(b),
{
    lemma_pop_trail(o, s, b);
    lemma_pop_vars(o, s, b);
    lemma_pop_reasons(o, s, b);
    lemma_pop_rest(o, s, b);
}

/// What holds while backtracking from `o` to level `b`.
spec fn bt_inv(o: Solver, s: Solver, b: int) -> bool {
    &&& o.wf()
    &&& s.unwinding(b)
    &&& 0 <= b <= o.decision_level
    &&& (b > 0 ==> exists|v: int| 1 <= v <= o.n() && (#[trigger] o.asg()[v]) is Some && o.lv()[v] == b)
    &&& s.num_vars == o.num_vars
    &&& s.decision_level == o.decision_level
    &&& s.clauses == o.clauses
    &&& s.input == o.input
    &&& s.learnt_sets == o.learnt_sets
    &&& s.conflicts == o.conflicts
    &&& s.restarts == o.restarts
    &&& s.next_restart == o.next_restart
    &&& s.luby == o.luby
    &&& s.trail@.len() <= o.trail@.len()
    &&& forall|p: int| 0 <= p < s.trail@.len() ==> #[trigger] s.trail@[p] == o.trail@[p]
    &&& forall|p: int| s.trail@.len() <= p < o.trail@.len() ==> o.lv()[#[trigger] o.trail@[p] as int] > b
    &&& forall|v: int|
        0 <= v <= o.n() && (#[trigger] s.asg()[v]) is Some ==> s.asg()[v] == o.asg()[v] && s.lv()[v] == o.lv()[v]
    &&& forall|v: int| 0 <= v <= o.n() && (#[trigger] o.asg()[v]) is Some && o.lv()[v] <= b ==> s.asg()[v] is Some
    &&& s.frequencies_cache == o.frequencies_cache
    &&& s.propagations == o.propagations
    &&& forall|v: int| 0 <= v <= o.n() && (#[trigger] s.asg()[v]) is Some ==> s.antecedents@[v] == o.antecedents@[v]
        && s.phases@[v] == o.phases@[v] && s.frequencies@[v] == o.frequencies@[v]
    &&& forall|v: int| 0 <= v <= o.n() && (#[trigger] s.asg()[v]) is None ==> if o.asg()[v] is Some {
        s.phases@[v] == o.asg()[v]->0
    } else {
        s.phases@[v] == o.phases@[v] && s.frequencies@[v] == o.frequencies@[v]
    }
}

#[verifier::rlimit(60)]
#[verifier::spinoff_prover]
proof fn lemma_bt_init(o: Solver, b: int)
    requires
        o.wf(),
        0 <= b <= o.decision_level,
        b > 0 ==> exists|v: int| 1 <= v <= o.n() && (#[trigger] o.asg()[v]) is Some && o.lv()[v] == b,
    ensures
        bt_inv(o, o, b),
{
    reveal(Solver::wf_fix_below);
}

#[verifier::rlimit(60)]
#[verifier::spinoff_prover]
proof fn lemma_bt_step(o: Solver, before: Solver, after: Solver, b: int)
    requires
        bt_inv(o, before, b),
        before.trail@.len() > 0,
        before.lv()[before.trail@.last() as int] > b,
        after.unwinding(b),
        after.popped_from(before),
    ensures
        bt_inv(o, after, b),
{
    reveal(Solver::wf_sizes);
    reveal(Solver::wf_trail);
    let len = after.trail@.len() as int;
    let w = before.trail@.last() as int;
    assert(before.trail@[len] == w);
    assert(o.trail@[len] == w);
    assert(1 <= w <= o.n());
    assert(before.asg()[w] is Some);
    assert(o.lv()[w] > b);
    assert forall|p: int| 0 <= p < len implies #[trigger] after.trail@[p] == o.trail@[p] by {
        assert(after.trail@[p] == before.trail@[p]);
    }
    assert forall|v: int| 0 <= v <= o.n() && (#[trigger] after.asg()[v]) is Some implies after.asg()[v] == o.asg()[v] && after.lv()[v] == o.lv()[v] by {
        assert(v != w);
        assert(before.asg()[v] is Some);
    }
    assert forall|v: int| 0 <= v <= o.n() && (#[trigger] o.asg()[v]) is Some && o.lv()[v] <= b implies after.asg()[v] is Some by {
        assert(before.asg()[v] is Some);
        assert(v != w);
    }
    assert forall|v: int| 0 <= v <= o.n() && (#[trigger] after.asg()[v]) is Some implies after.antecedents@[v] == o.antecedents@[v]
        && after.phases@[v] == o.phases@[v] && after.frequencies@[v] == o.frequencies@[v] by {
        assert(v != w);
        assert(before.asg()[v] is Some);
    }
    assert forall|v: int| 0 <= v <= o.n() && (#[trigger] after.asg()[v]) is None implies if o.asg()[v] is Some {
        after.phases@[v] == o.asg()[v]->0
    } else {
        after.phases@[v] == o.phases@[v] && after.frequencies@[v] == o.frequencies@[v]
    } by {
        if v == w {
            assert(before.asg()[w] == o.asg()[w]);
        } else {
            assert(before.asg()[v] is None);
        }
    }
}

#[verifier::rlimit(60)]
#[verifier::spinoff_prover]
proof fn lemma_level_irrelevant(pre: Solver, s: Solver, b: int, k: int)
    requires
        0 <= b <= u32::MAX,
        s == (Solver { decision_level: b as u32, ..pre }),
    ensures
        pre.wf_sizes() ==> s.wf_sizes(),
        pre.wf_clauses() ==> s.wf_clauses(),
        pre.wf_vars() ==> s.wf_vars(),
        pre.wf_reasons() ==> s.wf_reasons(),
        pre.wf_zero() ==> s.wf_zero(),
        pre.wf_fix_below(k) ==> s.wf_fix_below(k),
        pre.wf_sets() ==> s.wf_sets(),
{
    reveal(Solver::wf_sizes);
    reveal(Solver::wf_clauses);
    reveal(Solver::wf_vars);
    reveal(Solver::wf_reasons);
    reveal(Solver::wf_zero);
    reveal(Solver::wf_fix_below);
    reveal(Solver::wf_sets);
    assert(s.asg() == pre.asg());
    assert(s.lv() == pre.lv());
    assert(s.clauses == pre.clauses);
    assert(s.input == pre.input);
    assert(s.num_vars == pre.num_vars);
    if pre.wf_zero() {
        assert forall|m: Seq<bool>| #[trigger] is_model(m, s.n(), s.input@) implies forall|v: int|
            1 <= v <= s.n() && (#[trigger] s.asg()[v]) is Some && s.lv()[v] == 0 ==> m[v] == s.asg()[v]->0 by {
            assert(is_model(m, pre.n(), pre.input@));
        }
    }
}

/// After unwinding, no assignment on the trail is above level `b`.
#[verifier::rlimit(60)]
#[verifier::spinoff_prover]
proof fn lemma_bt_done_trail(pre: Solver, s: Solver, b: int)
    requires
        pre.wf_sizes(),
        pre.wf_trail(),
        0 <= b <= u32::MAX,
        b > 0 ==> exists|v: int| 1 <= v <= pre.n() && (#[trigger] pre.asg()[v]) is Some && pre.lv()[v] == b,
        !(pre.trail@.len() > 0 && pre.lv()[pre.trail@.last() as int] > b),
        s.trail == pre.trail,
        s.decision_levels == pre.decision_levels,
        s.assignments == pre.assignments,
        s.trail_pos == pre.trail_pos,
        s.num_assigned == pre.num_assigned,
        s.num_vars == pre.num_vars,
        s.decision_level == b,
    ensures
        s.wf_trail(),
        s.wf_top(),
{
    lemma_trail_levels_below(pre, b);
    reveal(Solver::wf_trail);
    reveal(Solver::wf_top);
    if b > 0 {
        lemma_trail_top_at(pre, b);
    }
}

#[verifier::rlimit(60)]
#[verifier::spinoff_prover]
proof fn lemma_trail_levels_below(pre: Solver, b: int)
    requires
        pre.wf_sizes(),
        pre.wf_trail(),
        !(pre.trail@.len() > 0 && pre.lv()[pre.trail@.last() as int] > b),
    ensures
        forall|p: int| 0 <= p < pre.trail@.len() ==> pre.lv()[#[trigger] pre.trail@[p] as int] <= b,
{
    reveal(Solver::wf_trail);
    let t = pre.trail@;
    if t.len() > 0 {
        assert(t.last() == t[t.len() - 1]);
        assert forall|p: int| 0 <= p < t.len() implies pre.lv()[#[trigger] t[p] as int] <= b by {
            if p < t.len() - 1 {
                assert(pre.lv()[t[p] as int] <= pre.lv()[t[t.len() - 1] as int]);
            }
        }
    }
}

#[verifier::rlimit(60)]
#[verifier::spinoff_prover]
proof fn lemma_trail_top_at(pre: Solver, b: int)
    requires
        pre.wf_sizes(),
        pre.wf_trail(),
        b > 0,
        exists|v: int| 1 <= v <= pre.n() && (#[trigger] pre.asg()[v]) is Some && pre.lv()[v] == b,
        !(pre.trail@.len() > 0 && pre.lv()[pre.trail@.last() as int] > b),
    ensures
        pre.trail@.len() > 0,
        pre.lv()[pre.trail@.last() as int] == b,
{
    reveal(Solver::wf_trail);
    let t = pre.trail@;
    let v = choose|v: int| 1 <= v <= pre.n() && (#[trigger] pre.asg()[v]) is Some && pre.lv()[v] == b;
    let p = pre.trail_pos@[v] as int;
    assert(t[p] == v);
    assert(t.last() == t[t.len() - 1]);
    if p < t.len() - 1 {
        assert(pre.lv()[t[p] as int] <= pre.lv()[t[t.len() - 1] as int]);
    }
}

#[verifier::rlimit(60)]
#[verifier::spinoff_prover]
proof fn lemma_bt_done_values(o: Solver, pre: Solver, s: Solver, b: int)
    requires
        bt_inv(o, pre, b),
        !(pre.trail@.len() > 0 && pre.lv()[pre.trail@.last() as int] > b),
        s == (Solver { decision_level: b as u32, ..pre }),
    ensures
        s.backtracked_values(o, b),
{
    reveal(Solver::wf_sizes);
    reveal(Solver::wf_trail);
    reveal(Solver::wf_vars);
    let t = s.trail@;
    let n = o.n();
    assert forall|v: int| 0 <= v <= n implies #[trigger] s.asg()[v] == if o.lv()[v] <= b {
        o.asg()[v]
    } else {
        None
    } by {
        if s.asg()[v] is Some {
            let p = s.trail_pos@[v] as int;
            assert(t[p] == v);
            assert(t.last() == t[t.len() - 1]);
            if p < t.len() - 1 {
                assert(s.lv()[t[p] as int] <= s.lv()[t[t.len() - 1] as int]);
            }
        } else if o.asg()[v] is Some && o.lv()[v] <= b {
            assert(pre.asg()[v] is Some);
        } else if o.asg()[v] is None {
            assert(o.lv()[v] == 0);
        }
    }
    assert forall|v: int| 0 <= v <= n && o.lv()[v] <= b implies #[trigger] s.lv()[v] == o.lv()[v] by {
        if o.asg()[v] is Some {
            assert(pre.asg()[v] is Some);
        } else {
            assert(o.lv()[v] == 0);
            assert(s.asg()[v] is None);
        }
    }
}

#[verifier::rlimit(60)]
#[verifier::spinoff_prover]
proof fn lemma_bt_done(o: Solver, pre: Solver, s: Solver, b: int)
    requires
        b <= u32::MAX,
        bt_inv(o, pre, b),
        !(pre.trail@.len() > 0 && pre.lv()[pre.trail@.last() as int] > b),
        s == (Solver { decision_level: b as u32, ..pre }),
    ensures
        s.wf(),
        s.backtracked_from(o, b),
{
    lemma_level_irrelevant(pre, s, b, b);
    if b > 0 {
        let v = choose|v: int| 1 <= v <= o.n() && (#[trigger] o.asg()[v]) is Some && o.lv()[v] == b;
        assert(pre.asg()[v] is Some);
    }
    lemma_bt_done_trail(pre, s, b);
    lemma_bt_done_values(o, pre, s, b);
    lemma_bt_done_fields(o, pre, s, b);
}

#[verifier::rlimit(60)]
#[verifier::spinoff_prover]
proof fn lemma_bt_done_fields(o: Solver, pre: Solver, s: Solver, b: int)
    requires
        bt_inv(o, pre, b),
        s == (Solver { decision_level: b as u32, ..pre }),
        forall|v: int| 0 <= v <= o.n() ==> #[trigger] s.asg()[v] == if o.lv()[v] <= b {
            o.asg()[v]
        } else {
            None
        },
    ensures
        s.frequencies_cache == o.frequencies_cache,
        s.propagations == o.propagations,
        s.antecedents@.len() == o.antecedents@.len(),
        s.phases@.len() == o.phases@.len(),
        s.frequencies@.len() == o.frequencies@.len(),
        forall|v: int| 0 <= v <= o.n() && o.lv()[v] <= b ==> {
            &&& #[trigger] s.antecedents@[v] == o.antecedents@[v]
            &&& s.phases@[v] == o.phases@[v]
            &&& s.frequencies@[v] == o.frequencies@[v]
        },
        forall|v: int| 0 <= v <= o.n() && o.lv()[v] > b ==> {
            &&& #[trigger] s.antecedents@[v] is None
            &&& s.phases@[v] == o.asg()[v]->0
            &&& s.frequencies@[v] == s.frequencies_cache@[v]
        },
{
    reveal(Solver::wf_sizes);
    reveal(Solver::wf_vars);
    assert(s.asg() == pre.asg());
    assert forall|v: int| 0 <= v <= o.n() && o.lv()[v] <= b implies {
        &&& #[trigger] s.antecedents@[v] == o.antecedents@[v]
        &&& s.phases@[v] == o.phases@[v]
        &&& s.frequencies@[v] == o.frequencies@[v]
    } by {
        if o.asg()[v] is None {
            assert(pre.asg()[v] is None);
        } else {
            assert(pre.asg()[v] is Some);
        }
    }
    assert forall|v: int| 0 <= v <= o.n() && o.lv()[v] > b implies {
        &&& #[trigger] s.antecedents@[v] is None
        &&& s.phases@[v] == o.asg()[v]->0
        &&& s.frequencies@[v] == s.frequencies_cache@[v]
    } by {
        assert(pre.asg()[v] is None);
        assert(o.asg()[v] is Some);
    }
}

/// What a scan of one clause finds.
enum ClauseState {
    Satisfied,
    Open,
    Unit(Lit),
    Conflict,
}

/// The trail of a well-formed state holds at most `n` variables.
#[verifier::rlimit(60)]
#[verifier::spinoff_prover]
proof fn lemma_trail_bound(s: Solver)
    requires
        s.wf(),
    ensures
        s.trail@.len() <= s.n(),
{
    reveal(Solver::wf_sizes);
    reveal(Solver::wf_trail);
    let t = s.trail@;
    let n = s.n();
    let ts = t.map_values(|x: VarId| x as int);
    assert forall|a: int, b: int| 0 <= a < ts.len() && 0 <= b < ts.len() && a != b implies #[trigger] ts[a] != #[trigger] ts[b] by {
        assert(s.trail_pos@[t[a] as int] == a && s.trail_pos@[t[b] as int] == b);
    }
    ts.unique_seq_to_set();
    let range = set_int_range(1, n as int + 1);
    vstd::set_lib::lemma_int_range(1, n as int + 1);
    assert forall|x: int| #[trigger] ts.to_set().contains(x) implies range.contains(x) by {
        let p = choose|p: int| 0 <= p < ts.len() && ts[p] == x;
        assert(1 <= t[p] <= n);
    }
    vstd::set_lib::lemma_len_subset(ts.to_set(), range);
}

/// A clause that the scan skipped is open at the current level.
#[verifier::rlimit(60)]
#[verifier::spinoff_prover]
proof fn lemma_skipped_open(s: Solver, ci: int)
    requires
        s.wf(),
        0 <= ci < s.clauses@.len(),
        (exists|q: int| 0 <= q < s.clauses@[ci]@.len() && is_true(s.asg(), #[trigger] s.clauses@[ci]@[q])) || (exists|q1: int, q2: int|
            0 <= q1 < s.clauses@[ci]@.len() && 0 <= q2 < s.clauses@[ci]@.len() && q1 != q2 && s.asg()[(#[trigger] s.clauses@[ci]@[q1]).var_spec() as int] is None
                && s.asg()[(#[trigger] s.clauses@[ci]@[q2]).var_spec() as int] is None),
    ensures
        open_at(s.asg(), s.lv(), s.clauses@[ci]@, s.decision_level as int),
{
    reveal(Solver::wf_sizes);
    reveal(Solver::wf_clauses);
    reveal(Solver::wf_trail);
    let c = s.clauses@[ci]@;
    assert(clause_in_range(c, s.n()));
    if exists|q: int| 0 <= q < c.len() && is_true(s.asg(), #[trigger] c[q]) {
        let q = choose|q: int| 0 <= q < c.len() && is_true(s.asg(), #[trigger] c[q]);
        let v = c[q].var_spec() as int;
        assert(1 <= v <= s.n());
        assert(s.trail@[s.trail_pos@[v] as int] == v);
        assert(true_at(s.asg(), s.lv(), c[q], s.decision_level as int));
    } else {
        let (q1, q2) = choose|q1: int, q2: int|
            0 <= q1 < c.len() && 0 <= q2 < c.len() && q1 != q2 && s.asg()[(#[trigger] c[q1]).var_spec() as int] is None
                && s.asg()[(#[trigger] c[q2]).var_spec() as int] is None;
        assert(unset_at(s.asg(), s.lv(), c[q1], s.decision_level as int));
        assert(unset_at(s.asg(), s.lv(), c[q2], s.decision_level as int));
    }
}

/// At level 0, every model of the input satisfies the remaining literal of a
/// unit clause.
#[verifier::rlimit(60)]
#[verifier::spinoff_prover]
proof fn lemma_unit_at_zero(s: Solver, ci: usize, l: Lit)
    requires
        s.wf(),
        s.decision_level == 0,
        0 <= ci < s.clauses@.len(),
        forall|q: int| 0 <= q < s.clauses@[ci as int]@.len() ==> #[trigger] s.clauses@[ci as int]@[q] == l || is_false(s.asg(), s.clauses@[ci as int]@[q]),
    ensures
        forall|m: Seq<bool>| #[trigger] is_model(m, s.n(), s.input@) ==> sat_lit(m, l),
{
    reveal(Solver::wf_sizes);
    reveal(Solver::wf_clauses);
    reveal(Solver::wf_trail);
    reveal(Solver::wf_zero);
    let c = s.clauses@[ci as int]@;
    let n = s.n();
    assert(clause_in_range(c, n));
    assert forall|m: Seq<bool>| #[trigger] is_model(m, n, s.input@) implies sat_lit(m, l) by {
        assert(implied(c, n, s.input@));
        assert(sat_clause(m, c));
        let q = choose|q: int| 0 <= q < c.len() && sat_lit(m, #[trigger] c[q]);
        if c[q] != l {
            let v = c[q].var_spec() as int;
            assert(is_false(s.asg(), c[q]));
            assert(1 <= v <= n);
            assert(s.trail@[s.trail_pos@[v] as int] == v);
            assert(s.lv()[v] == 0);
        }
    }
}

/// A unit clause is a sound reason for its remaining literal.
#[verifier::rlimit(60)]
#[verifier::spinoff_prover]
proof fn lemma_unit_pre(s: Solver, ci: usize, l: Lit)
    requires
        s.wf(),
        0 <= ci < s.clauses@.len(),
        exists|q: int| 0 <= q < s.clauses@[ci as int]@.len() && #[trigger] s.clauses@[ci as int]@[q] == l,
        s.asg()[l.var_spec() as int] is None,
        forall|q: int| 0 <= q < s.clauses@[ci as int]@.len() ==> #[trigger] s.clauses@[ci as int]@[q] == l || is_false(s.asg(), s.clauses@[ci as int]@[q]),
    ensures
        s.assign_pre(l, Some(ci)),
{
    if s.decision_level == 0 {
        lemma_unit_at_zero(s, ci, l);
    }
    let q0 = choose|q: int| 0 <= q < s.clauses@[ci as int]@.len() && #[trigger] s.clauses@[ci as int]@[q] == l;
    lemma_lit_in_range(s, ci as int, q0);
}

/// Every literal of a database clause names a variable in `1..=n`.
#[verifier::rlimit(60)]
#[verifier::spinoff_prover]
proof fn lemma_lit_in_range(s: Solver, ci: int, q: int)
    requires
        s.wf(),
        0 <= ci < s.clauses@.len(),
        0 <= q < s.clauses@[ci]@.len(),
    ensures
        1 <= s.clauses@[ci]@[q].var_spec() <= s.n(),
{
    reveal(Solver::wf_clauses);
    assert(clause_in_range(s.clauses@[ci]@, s.n()));
}

/// The sorted copy of a falsified clause starts conflict analysis.
#[verifier::rlimit(60)]
#[verifier::spinoff_prover]
proof fn lemma_initial_learnt(s: Solver, ci: int, learnt: Seq<Lit>)
    requires
        s.wf(),
        s.decision_level >= 1,
        0 <= ci < s.clauses@.len(),
        forall|q: int| 0 <= q < s.clauses@[ci]@.len() ==> is_false(s.asg(), #[trigger] s.clauses@[ci]@[q]),
        strictly_sorted(learnt),
        forall|y: Lit| learnt.contains(y) <==> s.clauses@[ci]@.contains(y),
    ensures
        s.learnt_ok(learnt, s.trail@.len() as int),
        exists|q: int| 0 <= q < learnt.len() && s.at_level(#[trigger] learnt[q]),
{
    reveal(Solver::wf_sizes);
    reveal(Solver::wf_clauses);
    reveal(Solver::wf_trail);
    reveal(Solver::wf_fix_below);
    let c = s.clauses@[ci]@;
    let n = s.n();
    assert(clause_in_range(c, n));
    assert forall|q: int| 0 <= q < learnt.len() implies {
        &&& 1 <= (#[trigger] learnt[q]).var_spec() <= n
        &&& is_false(s.asg(), learnt[q])
        &&& s.trail_pos@[learnt[q].var_spec() as int] < s.trail@.len()
    } by {
        assert(learnt.contains(learnt[q]));
        let k = choose|k: int| 0 <= k < c.len() && c[k] == learnt[q];
        assert(1 <= c[k].var_spec() <= n);
        assert(is_false(s.asg(), c[k]));
    }
    assert(implied(c, n, s.input@));
    assert forall|m: Seq<bool>| #[trigger] is_model(m, n, s.input@) implies sat_clause(m, learnt) by {
        assert(sat_clause(m, c));
        let k = choose|k: int| 0 <= k < c.len() && sat_lit(m, #[trigger] c[k]);
        assert(c.contains(c[k]));
        assert(learnt.contains(c[k]));
        let q = choose|q: int| 0 <= q < learnt.len() && learnt[q] == c[k];
        assert(sat_lit(m, learnt[q]));
    }
    let lvl = s.decision_level as int;
    assert(open_at(s.asg(), s.lv(), c, lvl - 1));
    if exists|q: int| 0 <= q < c.len() && true_at(s.asg(), s.lv(), #[trigger] c[q], lvl - 1) {
        let q = choose|q: int| 0 <= q < c.len() && true_at(s.asg(), s.lv(), #[trigger] c[q], lvl - 1);
        assert(is_false(s.asg(), c[q]));
    } else {
        let (q1, q2) = choose|q1: int, q2: int|
            0 <= q1 < c.len() && 0 <= q2 < c.len() && q1 != q2 && unset_at(s.asg(), s.lv(), #[trigger] c[q1], lvl - 1)
                && unset_at(s.asg(), s.lv(), #[trigger] c[q2], lvl - 1);
        let w = c[q1].var_spec() as int;
        assert(is_false(s.asg(), c[q1]));
        assert(1 <= w <= n);
        assert(s.trail@[s.trail_pos@[w] as int] == w);
        assert(s.lv()[w] == lvl);
        assert(c.contains(c[q1]));
        assert(learnt.contains(c[q1]));
        let q = choose|q: int| 0 <= q < learnt.len() && learnt[q] == c[q1];
        assert(s.at_level(learnt[q]));
    }
}

/// Two false literals on one variable are the same literal.
#[verifier::rlimit(60)]
#[verifier::spinoff_prover]
proof fn lemma_false_same_var(asg: Seq<Option<bool>>, a: Lit, b: Lit)
    requires
        is_false(asg, a),
        is_false(asg, b),
        a.var_spec() == b.var_spec(),
    ensures
        a == b,
{
    assert(a@ == 2 * a.var_spec() + (if a.pol_spec() { 1int } else { 0int }));
    assert(b@ == 2 * b.var_spec() + (if b.pol_spec() { 1int } else { 0int }));
    lemma_code_eq(a, b);
}

/// During conflict analysis with two literals at the current level, the
/// latest of them on the trail was implied at that level, by a clause.
#[verifier::rlimit(60)]
#[verifier::spinoff_prover]
proof fn lemma_resolvent_var(s: Solver, learnt: Seq<Lit>, i: int, j: int)
    requires
        s.wf(),
        s.learnt_ok(learnt, i),
        i <= s.trail@.len(),
        0 <= j < i,
        exists|q1: int, q2: int|
            0 <= q1 < learnt.len() && 0 <= q2 < learnt.len() && q1 != q2 && s.at_level(#[trigger] learnt[q1])
                && s.at_level(#[trigger] learnt[q2]),
        exists|q: int| 0 <= q < learnt.len() && (#[trigger] learnt[q]).var_spec() == s.trail@[j],
        forall|q: int| 0 <= q < learnt.len() ==> s.trail_pos@[(#[trigger] learnt[q]).var_spec() as int] <= j,
    ensures
        s.trail@[j] < s.antecedents@.len(),
        s.lv()[s.trail@[j] as int] == s.decision_level,
        s.antecedents@[s.trail@[j] as int] is Some,
        s.antecedents@[s.trail@[j] as int]->0 < s.clauses@.len(),
        exists|q: int| 0 <= q < learnt.len() && s.at_level(#[trigger] learnt[q]) && learnt[q].var_spec() != s.trail@[j],
{
    reveal(Solver::wf_sizes);
    reveal(Solver::wf_trail);
    reveal(Solver::wf_reasons);
    let n = s.n();
    let v = s.trail@[j] as int;
    let (q1, q2) = choose|q1: int, q2: int|
        0 <= q1 < learnt.len() && 0 <= q2 < learnt.len() && q1 != q2 && s.at_level(#[trigger] learnt[q1])
            && s.at_level(#[trigger] learnt[q2]);
    assert(learnt[q1]@ != learnt[q2]@) by {
        if q1 < q2 {
            assert(learnt[q1]@ < learnt[q2]@);
        } else {
            assert(learnt[q2]@ < learnt[q1]@);
        }
    }
    if learnt[q1].var_spec() == learnt[q2].var_spec() {
        lemma_false_same_var(s.asg(), learnt[q1], learnt[q2]);
    }
    let q = if learnt[q1].var_spec() != v { q1 } else { q2 };
    let w = learnt[q].var_spec() as int;
    assert(w != v);
    assert(1 <= w <= n);
    assert(is_false(s.asg(), learnt[q]));
    assert(s.trail@[s.trail_pos@[w] as int] == w);
    let pw = s.trail_pos@[w] as int;
    assert(pw < j);
    assert(s.lv()[s.trail@[pw] as int] <= s.lv()[s.trail@[j] as int]);
    assert(s.lv()[v] <= s.decision_level);
    assert(s.trail_pos@[v] == j);
    assert(s.asg()[v] is Some);
    if s.antecedents@[v] is Some {
        assert(s.reason_ok(v, s.antecedents@[v]->0 as int));
    }
    if s.antecedents@[v] is None {
        assert(s.asg()[v] is Some);
        if pw < j - 1 {
            assert(s.lv()[s.trail@[pw] as int] <= s.lv()[s.trail@[j - 1] as int]);
        }
    }
}

/// One resolution step of conflict analysis keeps its invariant, with the
/// trail bound lowered to the resolved variable's position.
#[verifier::rlimit(40)]
#[verifier::spinoff_prover]
proof fn lemma_resolve_step(s: Solver, learnt: Seq<Lit>, i: int, j: int, r: Seq<Lit>)
    requires
        s.wf(),
        s.learnt_ok(learnt, i),
        i <= s.trail@.len(),
        0 <= j < i,
        s.lv()[s.trail@[j] as int] == s.decision_level,
        s.antecedents@[s.trail@[j] as int] is Some,
        exists|q: int| 0 <= q < learnt.len() && s.at_level(#[trigger] learnt[q]) && learnt[q].var_spec() != s.trail@[j],
        forall|q: int| 0 <= q < learnt.len() ==> s.trail_pos@[(#[trigger] learnt[q]).var_spec() as int] <= j,
        strictly_sorted(r),
        forall|y: Lit| r.contains(y) <==> ((learnt.contains(y) || s.clauses@[s.antecedents@[s.trail@[j] as int]->0 as int]@.contains(y)) && y.var_spec() != s.trail@[j]),
    ensures
        s.learnt_ok(r, j),
        exists|q: int| 0 <= q < r.len() && s.at_level(#[trigger] r[q]),
{
    reveal(Solver::wf_sizes);
    reveal(Solver::wf_clauses);
    reveal(Solver::wf_trail);
    reveal(Solver::wf_reasons);
    let n = s.n();
    let v = s.trail@[j] as int;
    let c = s.antecedents@[v]->0 as int;
    let ante = s.clauses@[c]@;
    let val = s.asg()[v]->0;
    let own = Lit::of(v as nat, val);
    assert(s.asg()[v] is Some);
    assert(s.reason_ok(v, c));
    assert(clause_in_range(ante, n));
    assert(s.trail_pos@[v] == j);
    assert forall|q: int| 0 <= q < r.len() implies {
        &&& 1 <= (#[trigger] r[q]).var_spec() <= n
        &&& is_false(s.asg(), r[q])
        &&& s.trail_pos@[r[q].var_spec() as int] < j
    } by {
        let y = r[q];
        assert(r.contains(y));
        if learnt.contains(y) {
            let k = choose|k: int| 0 <= k < learnt.len() && learnt[k] == y;
            assert(is_false(s.asg(), learnt[k]));
            let w = y.var_spec() as int;
            assert(1 <= w <= n);
            assert(s.trail@[s.trail_pos@[w] as int] == w);
            assert(s.trail_pos@[w] <= j);
        } else {
            let k = choose|k: int| 0 <= k < ante.len() && ante[k] == y;
            assert(1 <= ante[k].var_spec() <= n);
            if ante[k]@ == own {
                assert(y.var_spec() == v);
            }
        }
    }
    assert forall|m: Seq<bool>| #[trigger] is_model(m, n, s.input@) implies sat_clause(m, r) by {
        assert(implied(learnt, n, s.input@));
        assert(implied(ante, n, s.input@));
        assert forall|y: Lit, z: Lit| learnt.contains(y) && ante.contains(z) && y.var_spec() == v && z.var_spec() == v implies y.pol_spec() != z.pol_spec() by {
            let k = choose|k: int| 0 <= k < learnt.len() && learnt[k] == y;
            assert(is_false(s.asg(), learnt[k]));
            let k2 = choose|k2: int| 0 <= k2 < ante.len() && ante[k2] == z;
            if ante[k2]@ != own {
                assert(s.trail_pos@[z.var_spec() as int] < s.trail_pos@[v]);
            }
        }
        lemma_resolution_sound(m, learnt, ante, r, v as nat);
    }
    let qw = choose|q: int| 0 <= q < learnt.len() && s.at_level(#[trigger] learnt[q]) && learnt[q].var_spec() != v;
    assert(learnt.contains(learnt[qw]));
    assert(r.contains(learnt[qw]));
    let q = choose|q: int| 0 <= q < r.len() && r[q] == learnt[qw];
    assert(s.at_level(r[q]));
}

/// `s` is `o` with clause `c` appended and its codes recorded.
spec fn learnt_into(o: Solver, mid: Solver, s: Solver, c: Seq<Lit>) -> bool {
    &&& o.wf()
    &&& clause_in_range(c, o.n())
    &&& strictly_sorted(c)
    &&& implied(c, o.n(), o.input@)
    &&& (forall|j: int| 0 <= j < o.decision_level ==> #[trigger] open_at(o.asg(), o.lv(), c, j))
    &&& !o.learnt_sets@.contains(codes(c))
    &&& mid.wf_sizes()
    &&& mid.wf_vars()
    &&& s == (Solver { learnt_sets: Ghost(o.learnt_sets@.insert(codes(c))), ..mid })
    &&& mid.clauses@ == o.clauses@.push(mid.clauses@.last())
    &&& mid.clauses@.last()@ == c
    &&& mid.learnt_sets == o.learnt_sets
    &&& mid.decision_level == o.decision_level
    &&& mid.num_vars == o.num_vars
    &&& mid.num_assigned == o.num_assigned
    &&& mid.assignments == o.assignments
    &&& mid.decision_levels == o.decision_levels
    &&& mid.antecedents == o.antecedents
    &&& mid.trail == o.trail
    &&& mid.trail_pos == o.trail_pos
    &&& mid.input == o.input
}

#[verifier::rlimit(60)]
#[verifier::spinoff_prover]
proof fn lemma_learn_same(o: Solver, mid: Solver, s: Solver, c: Seq<Lit>)
    requires
        learnt_into(o, mid, s, c),
    ensures
        s.wf_sizes(),
        s.wf_vars(),
        s.wf_trail(),
        s.wf_top(),
        s.wf_zero(),
{
    reveal(Solver::wf_sizes);
    reveal(Solver::wf_vars);
    reveal(Solver::wf_trail);
    reveal(Solver::wf_top);
    reveal(Solver::wf_zero);
    assert(s.asg() == o.asg());
    assert(s.lv() == o.lv());
    assert forall|m: Seq<bool>| #[trigger] is_model(m, s.n(), s.input@) implies forall|v: int|
        1 <= v <= s.n() && (#[trigger] s.asg()[v]) is Some && s.lv()[v] == 0 ==> m[v] == s.asg()[v]->0 by {
        assert(is_model(m, o.n(), o.input@));
    }
}

#[verifier::rlimit(60)]
#[verifier::spinoff_prover]
proof fn lemma_learn_clauses(o: Solver, mid: Solver, s: Solver, c: Seq<Lit>)
    requires
        learnt_into(o, mid, s, c),
    ensures
        s.wf_clauses(),
        s.wf_reasons(),
        s.wf_fix_below(s.decision_level as int),
{
    reveal(Solver::wf_clauses);
    reveal(Solver::wf_reasons);
    reveal(Solver::wf_fix_below);
    let n = o.n();
    let last = o.clauses@.len() as int;
    assert forall|i: int| 0 <= i < last implies #[trigger] s.clauses@[i] == o.clauses@[i] by {}
    assert(s.clauses@[last]@ == c);
    assert forall|i: int| 0 <= i < s.clauses@.len() implies clause_in_range(#[trigger] s.clauses@[i]@, n) && implied(s.clauses@[i]@, n, s.input@) by {
        if i < last {
            assert(s.clauses@[i] == o.clauses@[i]);
        }
    }
    assert forall|i: int| 0 <= i < s.input@.len() implies #[trigger] s.clauses@[i]@ == s.input@[i] by {
        assert(s.clauses@[i] == o.clauses@[i]);
    }
    assert(s.asg() == o.asg());
    assert(s.lv() == o.lv());
    assert forall|v: int| 1 <= v <= n && (#[trigger] s.asg()[v]) is Some implies match s.antecedents@[v] {
        Some(c) => s.reason_ok(v, c as int),
        None => s.lv()[v] >= 1 && (s.trail_pos@[v] == 0 || s.lv()[s.trail@[s.trail_pos@[v] - 1] as int] < s.lv()[v]),
    } by {
        match s.antecedents@[v] {
            Some(ci) => {
                assert(o.reason_ok(v, ci as int));
                assert(s.clauses@[ci as int] == o.clauses@[ci as int]);
            },
            None => {},
        }
    }
    assert forall|ci: int, j: int| 0 <= ci < s.clauses@.len() && 0 <= j < s.decision_level implies #[trigger] open_at(
        s.asg(), s.lv(), s.clauses@[ci]@, j) by {
        if ci < last {
            assert(s.clauses@[ci] == o.clauses@[ci]);
        }
    }
}

#[verifier::rlimit(60)]
#[verifier::spinoff_prover]
proof fn lemma_learn_sets(o: Solver, mid: Solver, s: Solver, c: Seq<Lit>)
    requires
        learnt_into(o, mid, s, c),
    ensures
        s.wf_sets(),
{
    reveal(Solver::wf_sets);
    let n = o.n();
    let last = o.clauses@.len() as int;
    assert forall|i: int| 0 <= i < last implies #[trigger] s.clauses@[i] == o.clauses@[i] by {}
    assert(s.clauses@[last]@ == c);
    assert(c.no_duplicates()) by {
        assert forall|a: int, b: int| 0 <= a < c.len() && 0 <= b < c.len() && a != b implies c[a] != c[b] by {
            if a < b {
                assert(c[a]@ < c[b]@);
            } else {
                assert(c[b]@ < c[a]@);
            }
        }
    }
    assert(codes(c).subset_of(universe(n))) by {
        assert forall|x: int| #[trigger] codes(c).contains(x) implies universe(n).contains(x) by {
            let j = choose|j: int| 0 <= j < c.len() && (#[trigger] c[j])@ == x;
            assert(1 <= c[j].var_spec() <= n);
        }
    }
    assert forall|st: Set<int>| #[trigger] s.learnt_sets@.contains(st) implies st.subset_of(universe(n)) && exists|i: int|
        0 <= i < s.clauses@.len() && (#[trigger] s.clauses@[i])@.no_duplicates() && codes(s.clauses@[i]@) == st by {
        if st == codes(c) {
            assert(s.clauses@[last]@.no_duplicates());
        } else {
            assert(o.learnt_sets@.contains(st));
            let i = choose|i: int| 0 <= i < o.clauses@.len() && (#[trigger] o.clauses@[i])@.no_duplicates() && codes(o.clauses@[i]@) == st;
            assert(s.clauses@[i] == o.clauses@[i]);
        }
    }
}

#[verifier::rlimit(60)]
#[verifier::spinoff_prover]
proof fn lemma_sets_finite(s: Solver)
    requires
        s.wf(),
    ensures
        s.learnt_sets@.finite(),
{
    reveal(Solver::wf_sets);
}

/// A first-UIP clause is not yet among the recorded clauses: it is unit one
/// level below the conflict, where every recorded clause is open.
#[verifier::rlimit(60)]
#[verifier::spinoff_prover]
proof fn lemma_learnt_new(s: Solver, learnt: Seq<Lit>)
    requires
        s.wf(),
        s.decision_level >= 1,
        s.learnt_ok(learnt, s.trail@.len() as int),
        exists|q: int| 0 <= q < learnt.len() && s.at_level(#[trigger] learnt[q]) && forall|p: int|
            0 <= p < learnt.len() && p != q ==> !s.at_level(#[trigger] learnt[p]),
    ensures
        !s.learnt_sets@.contains(codes(learnt)),
{
    reveal(Solver::wf_sizes);
    reveal(Solver::wf_trail);
    reveal(Solver::wf_fix_below);
    reveal(Solver::wf_sets);
    if s.learnt_sets@.contains(codes(learnt)) {
        let n = s.n();
        let u = choose|q: int| 0 <= q < learnt.len() && s.at_level(#[trigger] learnt[q]) && forall|p: int|
            0 <= p < learnt.len() && p != q ==> !s.at_level(#[trigger] learnt[p]);
        let i = choose|i: int| 0 <= i < s.clauses@.len() && (#[trigger] s.clauses@[i])@.no_duplicates() && codes(s.clauses@[i]@) == codes(learnt);
        let d = s.clauses@[i]@;
        let j = s.decision_level - 1;
        assert(open_at(s.asg(), s.lv(), d, j));
        // each literal of d is a literal of the learnt clause
        assert forall|q: int| 0 <= q < d.len() implies #[trigger] learnt.contains(d[q]) by {
            assert(codes(d).contains(d[q]@ as int));
            assert(codes(learnt).contains(d[q]@ as int));
            let k = choose|k: int| 0 <= k < learnt.len() && (#[trigger] learnt[k])@ == d[q]@;
            lemma_code_eq(learnt[k], d[q]);
            assert(learnt[k] == d[q]);
        }
        if exists|q: int| 0 <= q < d.len() && true_at(s.asg(), s.lv(), #[trigger] d[q], j) {
            let q = choose|q: int| 0 <= q < d.len() && true_at(s.asg(), s.lv(), #[trigger] d[q], j);
            assert(learnt.contains(d[q]));
            let k = choose|k: int| 0 <= k < learnt.len() && #[trigger] learnt[k] == d[q];
            assert(is_false(s.asg(), learnt[k]));
        } else {
            let (q1, q2) = choose|q1: int, q2: int|
                0 <= q1 < d.len() && 0 <= q2 < d.len() && q1 != q2 && unset_at(s.asg(), s.lv(), #[trigger] d[q1], j)
                    && unset_at(s.asg(), s.lv(), #[trigger] d[q2], j);
            assert(learnt.contains(d[q1]));
            assert(learnt.contains(d[q2]));
            let k1 = choose|k: int| 0 <= k < learnt.len() && #[trigger] learnt[k] == d[q1];
            let k2 = choose|k: int| 0 <= k < learnt.len() && #[trigger] learnt[k] == d[q2];
            let w1 = learnt[k1].var_spec() as int;
            let w2 = learnt[k2].var_spec() as int;
            assert(is_false(s.asg(), learnt[k1]) && is_false(s.asg(), learnt[k2]));
            assert(1 <= w1 <= n && 1 <= w2 <= n);
            assert(s.trail@[s.trail_pos@[w1] as int] == w1);
            assert(s.trail@[s.trail_pos@[w2] as int] == w2);
            assert(s.at_level(learnt[k1]));
            assert(s.at_level(learnt[k2]));
            assert(k1 == u && k2 == u);
            assert(d[q1] == d[q2]);
        }
    }
}

/// After jumping back to level `b`, the learnt clause has two unassigned
/// literals below `b`: its implication point and one assigned at `b`.
#[verifier::rlimit(60)]
#[verifier::spinoff_prover]
proof fn lemma_learnt_open(o: Solver, s: Solver, learnt: Seq<Lit>, b: int)
    requires
        o.wf(),
        o.decision_level >= 1,
        o.learnt_ok(learnt, o.trail@.len() as int),
        exists|q: int| 0 <= q < learnt.len() && o.at_level(#[trigger] learnt[q]) && forall|p: int|
            0 <= p < learnt.len() && p != q ==> !o.at_level(#[trigger] learnt[p]),
        b < o.decision_level || b == 0,
        b > 0 ==> exists|q: int| 0 <= q < learnt.len() && o.lv()[(#[trigger] learnt[q]).var_spec() as int] == b,
        s.backtracked_from(o, b),
    ensures
        forall|j: int| 0 <= j < b ==> #[trigger] open_at(s.asg(), s.lv(), learnt, j),
        implied(learnt, s.n(), s.input@),
        clause_in_range(learnt, s.n()),
        strictly_sorted(learnt),
{
    let n = o.n();
    let u = choose|q: int| 0 <= q < learnt.len() && o.at_level(#[trigger] learnt[q]) && forall|p: int|
        0 <= p < learnt.len() && p != q ==> !o.at_level(#[trigger] learnt[p]);
    if b > 0 {
        let q = choose|q: int| 0 <= q < learnt.len() && o.lv()[(#[trigger] learnt[q]).var_spec() as int] == b;
        assert(q != u);
        let wu = learnt[u].var_spec() as int;
        let wq = learnt[q].var_spec() as int;
        assert(1 <= wu <= n && 1 <= wq <= n);
        assert(s.asg()[wu] is None);
        assert(is_false(o.asg(), learnt[q]));
        assert(s.asg()[wq] == o.asg()[wq]);
        assert(s.lv()[wq] == b);
        assert forall|j: int| 0 <= j < b implies #[trigger] open_at(s.asg(), s.lv(), learnt, j) by {
            assert(unset_at(s.asg(), s.lv(), learnt[u], j));
            assert(unset_at(s.asg(), s.lv(), learnt[q], j));
        }
    }
}

/// The total assignment that a complete partial assignment stands for.
pub open spec fn total(values: Seq<Option<bool>>) -> Seq<bool> {
    values.map_values(|o: Option<bool>| o == Some(true))
}

/// `s` differs from `o` at most in its counters and restart schedule.
spec fn same_core(o: Solver, s: Solver) -> bool {
    &&& s.clauses == o.clauses
    &&& s.decision_level == o.decision_level
    &&& s.num_vars == o.num_vars
    &&& s.num_assigned == o.num_assigned
    &&& s.assignments == o.assignments
    &&& s.decision_levels == o.decision_levels
    &&& s.antecedents == o.antecedents
    &&& s.phases == o.phases
    &&& s.frequencies == o.frequencies
    &&& s.frequencies_cache == o.frequencies_cache
    &&& s.trail == o.trail
    &&& s.trail_pos == o.trail_pos
    &&& s.input == o.input
    &&& s.learnt_sets == o.learnt_sets
}

#[verifier::rlimit(60)]
#[verifier::spinoff_prover]
proof fn lemma_same_core(o: Solver, s: Solver)
    requires
        same_core(o, s),
    ensures
        o.wf() ==> s.wf(),
{
    reveal(Solver::wf_sizes);
    reveal(Solver::wf_clauses);
    reveal(Solver::wf_trail);
    reveal(Solver::wf_top);
    reveal(Solver::wf_vars);
    reveal(Solver::wf_reasons);
    reveal(Solver::wf_zero);
    reveal(Solver::wf_fix_below);
    reveal(Solver::wf_sets);
    assert(s.asg() == o.asg());
    assert(s.lv() == o.lv());
    if o.wf() {
        assert forall|m: Seq<bool>| #[trigger] is_model(m, s.n(), s.input@) implies forall|v: int|
            1 <= v <= s.n() && (#[trigger] s.asg()[v]) is Some && s.lv()[v] == 0 ==> m[v] == s.asg()[v]->0 by {
            assert(is_model(m, o.n(), o.input@));
        }
    }
}

/// The decision level never exceeds the length of the trail.
#[verifier::rlimit(60)]
#[verifier::spinoff_prover]
proof fn lemma_level_bound(s: Solver)
    requires
        s.wf(),
    ensures
        s.decision_level <= s.trail@.len(),
{
    reveal(Solver::wf_sizes);
    reveal(Solver::wf_trail);
    reveal(Solver::wf_top);
    let t = s.trail@;
    if t.len() > 0 {
        lemma_levels_step(s, t.len() - 1);
    }
}

#[verifier::rlimit(60)]
#[verifier::spinoff_prover]
proof fn lemma_levels_step(s: Solver, p: int)
    requires
        s.wf_sizes(),
        s.wf_trail(),
        0 <= p < s.trail@.len(),
    ensures
        s.lv()[s.trail@[p] as int] <= p + 1,
    decreases p,
{
    reveal(Solver::wf_trail);
    if p > 0 {
        lemma_levels_step(s, p - 1);
    }
}

#[verifier::rlimit(100)]
#[verifier::spinoff_prover]
proof fn lemma_decide_trail(pre: Solver, s: Solver)
    requires
        pre.wf_trail(),
        pre.wf_top(),
        pre.decision_level < u32::MAX,
        s.trail == pre.trail,
        s.decision_levels == pre.decision_levels,
        s.assignments == pre.assignments,
        s.trail_pos == pre.trail_pos,
        s.num_assigned == pre.num_assigned,
        s.num_vars == pre.num_vars,
        s.decision_level == pre.decision_level + 1,
    ensures
        s.wf_trail(),
        s.decision_pre(),
{
    reveal(Solver::wf_trail);
    reveal(Solver::wf_top);
    assert(s.asg() == pre.asg());
    assert(s.lv() == pre.lv());
    assert(s.trail == pre.trail);
    if s.trail@.len() > 0 {
        assert(s.trail@.last() == s.trail@[s.trail@.len() - 1]);
    }
}

#[verifier::rlimit(60)]
#[verifier::spinoff_prover]
proof fn lemma_decide_fix(pre: Solver, s: Solver)
    requires
        pre.wf(),
        forall|c: int| 0 <= c < pre.clauses@.len() ==> #[trigger] open_at(
            pre.asg(), pre.lv(), pre.clauses@[c]@, pre.decision_level as int),
        pre.decision_level < u32::MAX,
        s == (Solver { decision_level: (pre.decision_level + 1) as u32, ..pre }),
    ensures
        s.wf_fix_below(s.decision_level as int),
{
    reveal(Solver::wf_fix_below);
    assert(s.asg() == pre.asg());
    assert(s.lv() == pre.lv());
    assert(s.clauses == pre.clauses);
    assert forall|c: int, j: int| 0 <= c < s.clauses@.len() && 0 <= j < s.decision_level implies #[trigger] open_at(
        s.asg(), s.lv(), s.clauses@[c]@, j) by {
        if j < pre.decision_level {
            assert(open_at(pre.asg(), pre.lv(), pre.clauses@[c]@, j));
        } else {
            assert(open_at(pre.asg(), pre.lv(), pre.clauses@[c]@, pre.decision_level as int));
        }
    }
}

#[verifier::rlimit(60)]
#[verifier::spinoff_prover]
proof fn lemma_decide_pre(pre: Solver, s: Solver, lit: Lit)
    requires
        pre.wf(),
        forall|c: int| 0 <= c < pre.clauses@.len() ==> #[trigger] open_at(
            pre.asg(), pre.lv(), pre.clauses@[c]@, pre.decision_level as int),
        1 <= lit.var_spec() <= pre.n(),
        pre.asg()[lit.var_spec() as int] is None,
        pre.decision_level < u32::MAX,
        s == (Solver { decision_level: (pre.decision_level + 1) as u32, ..pre }),
    ensures
        s.assign_pre(lit, None),
{
    lemma_level_irrelevant(pre, s, s.decision_level as int, pre.decision_level as int);
    lemma_decide_trail(pre, s);
    lemma_decide_fix(pre, s);
}

/// A clause falsified at level 0 shows that the input has no model.
#[verifier::rlimit(60)]
#[verifier::spinoff_prover]
proof fn lemma_unsat_at_zero(s: Solver, ci: int)
    requires
        s.wf(),
        s.decision_level == 0,
        0 <= ci < s.clauses@.len(),
        forall|q: int| 0 <= q < s.clauses@[ci]@.len() ==> is_false(s.asg(), #[trigger] s.clauses@[ci]@[q]),
    ensures
        forall|m: Seq<bool>| !is_model(m, s.n(), s.input@),
{
    reveal(Solver::wf_sizes);
    reveal(Solver::wf_clauses);
    reveal(Solver::wf_trail);
    reveal(Solver::wf_zero);
    let c = s.clauses@[ci]@;
    let n = s.n();
    assert(clause_in_range(c, n));
    assert forall|m: Seq<bool>| !is_model(m, n, s.input@) by {
        if is_model(m, n, s.input@) {
            assert(implied(c, n, s.input@));
            assert(sat_clause(m, c));
            let q = choose|q: int| 0 <= q < c.len() && sat_lit(m, #[trigger] c[q]);
            let v = c[q].var_spec() as int;
            assert(is_false(s.asg(), c[q]));
            assert(1 <= v <= n);
            assert(s.trail@[s.trail_pos@[v] as int] == v);
        }
    }
}

/// With every variable assigned and every clause open, the assignment is a
/// model of the input.
#[verifier::rlimit(60)]
#[verifier::spinoff_prover]
proof fn lemma_sat_when_full(s: Solver)
    requires
        s.wf(),
        forall|v: int| 1 <= v <= s.n() ==> (#[trigger] s.asg()[v]) is Some,
        forall|c: int| 0 <= c < s.clauses@.len() ==> #[trigger] open_at(
            s.asg(), s.lv(), s.clauses@[c]@, s.decision_level as int),
    ensures
        is_model(total(s.asg()), s.n(), s.input@),
{
    reveal(Solver::wf_sizes);
    reveal(Solver::wf_clauses);
    let n = s.n();
    let m = total(s.asg());
    let f = s.input@;
    assert forall|i: int| 0 <= i < f.len() implies sat_clause(m, #[trigger] f[i]) by {
        let c = s.clauses@[i]@;
        assert(c == f[i]);
        assert(clause_in_range(c, n));
        assert(open_at(s.asg(), s.lv(), c, s.decision_level as int));
        if exists|q: int| 0 <= q < c.len() && true_at(s.asg(), s.lv(), #[trigger] c[q], s.decision_level as int) {
            let q = choose|q: int| 0 <= q < c.len() && true_at(s.asg(), s.lv(), #[trigger] c[q], s.decision_level as int);
            assert(sat_lit(m, c[q]));
        } else {
            let (q1, q2) = choose|q1: int, q2: int|
                0 <= q1 < c.len() && 0 <= q2 < c.len() && q1 != q2 && unset_at(s.asg(), s.lv(), #[trigger] c[q1], s.decision_level as int)
                    && unset_at(s.asg(), s.lv(), #[trigger] c[q2], s.decision_level as int);
            assert(1 <= c[q1].var_spec() <= n);
            lemma_assigned_level(s, c[q1].var_spec() as int);
        }
    }
}

#[verifier::rlimit(60)]
#[verifier::spinoff_prover]
proof fn lemma_assigned_level(s: Solver, v: int)
    requires
        s.wf(),
        1 <= v <= s.n(),
        s.asg()[v] is Some,
    ensures
        s.lv()[v] <= s.decision_level,
{
    reveal(Solver::wf_sizes);
    reveal(Solver::wf_trail);
    assert(s.trail@[s.trail_pos@[v] as int] == v);
}

/// The recorded learnt clauses are at most `2^(2n)`: each is a set of
/// literal codes over `1..=n`.
#[verifier::rlimit(60)]
#[verifier::spinoff_prover]
proof fn lemma_sets_bound(s: Solver)
    requires
        s.wf(),
    ensures
        s.learnt_sets@.len() <= pow2(2 * s.n()),
{
    reveal(Solver::wf_sets);
    vstd::set_lib::lemma_int_range(2, (2 * s.n() + 2) as int);
    crate::bound::lemma_family_bound(s.learnt_sets@, universe(s.n()));
}

/// The DIMACS form of a complete assignment: the literal of each variable
/// `1..=n`, positive when it is true.
pub open spec fn model_dimacs(values: Seq<Option<bool>>, n: nat) -> Seq<i32> {
    Seq::new(n, |i: int| if values[i + 1] == Some(true) { (i + 1) as i32 } else { -(i + 1) as i32 })
}

/// The variables that `values` assigns.
pub open spec fn assigned_vars(values: Seq<Option<bool>>) -> Set<int> {
    Set::new(|v: int| 0 <= v < values.len() && values[v] is Some)
}

/// Every variable is assigned exactly when the trail holds `n` variables.
#[verifier::rlimit(60)]
#[verifier::spinoff_prover]
proof fn lemma_all_assigned_count(s: Solver)
    requires
        s.wf(),
    ensures
        (s.num_assigned == s.num_vars) == forall|v: int| 1 <= v <= s.n() ==> (#[trigger] s.asg()[v]) is Some,
{
    reveal(Solver::wf_sizes);
    reveal(Solver::wf_trail);
    let n = s.n();
    lemma_trail_bound(s);
    if exists|v: int| 1 <= v <= n && (#[trigger] s.asg()[v]) is None {
        let v = choose|v: int| 1 <= v <= n && (#[trigger] s.asg()[v]) is None;
        lemma_trail_short(s.trail@, n, s.trail_pos@, s.asg(), v);
    } else {
        let t = s.trail@;
        let ts = t.map_values(|x: VarId| x as int);
        assert forall|a: int, b: int| 0 <= a < ts.len() && 0 <= b < ts.len() && a != b implies #[trigger] ts[a] != #[trigger] ts[b] by {
            assert(s.trail_pos@[t[a] as int] == a && s.trail_pos@[t[b] as int] == b);
        }
        ts.unique_seq_to_set();
        let range = set_int_range(1, n as int + 1);
        vstd::set_lib::lemma_int_range(1, n as int + 1);
        assert forall|x: int| #[trigger] range.contains(x) implies ts.to_set().contains(x) by {
            assert(s.asg()[x] is Some);
            assert(ts[s.trail_pos@[x] as int] == x);
        }
        vstd::set_lib::lemma_len_subset(range, ts.to_set());
    }
}

#[verifier::spinoff_prover]
proof fn lemma_propagated_refl(s: Solver)
    requires
        s.wf(),
    ensures
        s.propagated_from(s),
{
}

#[verifier::rlimit(60)]
#[verifier::spinoff_prover]
proof fn lemma_propagated_step(o: Solver, mid: Solver, s: Solver, lit: Lit, c: usize)
    requires
        mid.wf(),
        mid.propagated_from(o),
        mid.assign_pre(lit, Some(c)),
        s.assigned_from(mid, lit, Some(c)),
    ensures
        s.propagated_from(o),
{
    reveal(Solver::wf_sizes);
    let v0 = lit.var_spec() as int;
    assert forall|p: int| 0 <= p < o.trail@.len() implies #[trigger] s.trail@[p] == o.trail@[p] by {
        assert(s.trail@[p] == mid.trail@[p]);
    }
    assert forall|v: int| 0 <= v <= o.n() && (#[trigger] o.asg()[v]) is Some implies {
        &&& s.asg()[v] == o.asg()[v]
        &&& s.lv()[v] == o.lv()[v]
        &&& s.antecedents@[v] == o.antecedents@[v]
    } by {
        assert(mid.asg()[v] is Some);
        assert(v != v0);
    }
    assert forall|v: int| 0 <= v <= o.n() && o.asg()[v] is None && (#[trigger] s.asg()[v]) is Some implies {
        &&& s.lv()[v] == o.decision_level
        &&& s.antecedents@[v] is Some
        &&& s.frequencies@[v] == -1
    } by {
        if v != v0 {
            assert(mid.asg()[v] is Some);
        }
    }
}

#[verifier::rlimit(80)]
#[verifier::spinoff_prover]
proof fn lemma_learnt_after(o: Solver, s1: Solver, s: Solver, l: Seq<Lit>)
    requires
        o.wf(),
        o.decision_level >= 1,
        o.learnt_ok(l, o.trail@.len() as int),
        exists|q: int| 0 <= q < l.len() && o.at_level(#[trigger] l[q]) && forall|p: int|
            0 <= p < l.len() && p != q ==> !o.at_level(#[trigger] l[p]),
        forall|q: int| 0 <= q < l.len() ==> o.lv()[(#[trigger] l[q]).var_spec() as int] <= o.decision_level,
        s1.decision_level < o.decision_level || s1.decision_level == 0,
        forall|q: int| 0 <= q < l.len() && !o.at_level(#[trigger] l[q]) ==> o.lv()[l[q].var_spec() as int] <= s1.decision_level,
        s1.decision_level > 0 ==> exists|q: int| 0 <= q < l.len() && o.lv()[(#[trigger] l[q]).var_spec() as int] == s1.decision_level,
        s1.backtracked_from(o, s1.decision_level as int),
        s.clauses@ == s1.clauses@.push(s.clauses@.last()),
        s.clauses@.last()@ == l,
        s.assignments == s1.assignments,
        s.decision_levels == s1.decision_levels,
        s.antecedents == s1.antecedents,
        s.decision_level == s1.decision_level,
        forall|v: int| 0 <= v <= o.n() ==> #[trigger] s.frequencies_cache@[v] == bumped(s1.frequencies_cache@[v], occurrences(l, v)),
    ensures
        s.learnt_after(o),
{
    reveal(Solver::wf_sizes);
    let lvl = o.decision_level;
    let b = s.decision_level;
    assert(s.clauses@.last()@ == l);
    assert forall|i: int| 0 <= i < o.clauses@.len() implies #[trigger] s.clauses@[i] == o.clauses@[i] by {
        assert(s.clauses@[i] == s1.clauses@[i]);
    }
    let u = choose|q: int| 0 <= q < l.len() && o.at_level(#[trigger] l[q]) && forall|p: int|
        0 <= p < l.len() && p != q ==> !o.at_level(#[trigger] l[p]);
    assert forall|p: int| 0 <= p < l.len() && p != u implies o.lv()[(#[trigger] l[p]).var_spec() as int] < lvl by {
        assert(!o.at_level(l[p]));
    }
    assert(o.lv()[l[u].var_spec() as int] == lvl);
    assert forall|q: int| 0 <= q < l.len() && o.lv()[(#[trigger] l[q]).var_spec() as int] < lvl implies o.lv()[l[q].var_spec() as int] <= b by {
        assert(!o.at_level(l[q]));
    }
    assert(clause_in_range(l, o.n()));
    assert(1 <= l[u].var_spec() <= o.n());
    assert(s.asg()[l[u].var_spec() as int] is None);
    assert forall|p: int| 0 <= p < l.len() && p != u implies is_false(s.asg(), #[trigger] l[p]) by {
        assert(!o.at_level(l[p]));
        assert(1 <= l[p].var_spec() <= o.n());
        assert(is_false(o.asg(), l[p]));
    }
    assert forall|v: int| 0 <= v <= o.n() && o.lv()[v] <= b implies {
        &&& #[trigger] s.asg()[v] == o.asg()[v]
        &&& s.lv()[v] == o.lv()[v]
        &&& s.antecedents@[v] == o.antecedents@[v]
    } by {
        assert(s1.asg()[v] == o.asg()[v]);
        assert(s1.lv()[v] == o.lv()[v]);
        assert(s1.antecedents@[v] == o.antecedents@[v]);
    }
    assert forall|v: int| 0 <= v <= o.n() implies #[trigger] s.frequencies_cache@[v] == bumped(o.frequencies_cache@[v], occurrences(l, v)) by {
        assert(s1.frequencies_cache == o.frequencies_cache);
    }
}

/// The input clauses open the database.
#[verifier::spinoff_prover]
proof fn lemma_db_prefix(s: Solver)
    requires
        s.wf(),
    ensures
        s.db().len() >= s.formula().len(),
        forall|i: int| 0 <= i < s.formula().len() ==> #[trigger] s.db()[i] == s.formula()[i],
{
    reveal(Solver::wf_clauses);
    assert forall|i: int| 0 <= i < s.formula().len() implies #[trigger] s.db()[i] == s.formula()[i] by {
        assert(s.clauses@[i]@ == s.input@[i]);
    }
}

} // verus!
