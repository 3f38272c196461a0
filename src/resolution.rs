use vstd::prelude::*;
use crate::types::{Clause, Lit, VarId, sat_clause, sat_lit};

verus! {

/// The literal codes of `c` strictly increase, so no literal repeats.
pub open spec fn strictly_sorted(c: Seq<Lit>) -> bool {
    forall|a: int, b: int| 0 <= a < b < c.len() ==> (#[trigger] c[a])@ < (#[trigger] c[b])@
}

/// Inserts `x` into the strictly sorted clause `out` unless it is there.
pub fn insert_sorted(out: &mut Clause, x: Lit)
    requires
        strictly_sorted(old(out)@),
    ensures
        strictly_sorted(final(out)@),
        forall|y: Lit| #[trigger] final(out)@.contains(y) <==> (old(out)@.contains(y) || y == x),
{
    let mut i: usize = 0;
    while i < out.len()
        invariant
            i <= out@.len(),
            out@ == old(out)@,
            strictly_sorted(out@),
            forall|a: int| 0 <= a < i ==> (#[trigger] out@[a])@ < x@,
        ensures
            i <= out@.len(),
            out@ == old(out)@,
            forall|a: int| 0 <= a < i ==> (#[trigger] out@[a])@ < x@,
            i < out@.len() ==> out@[i as int]@ > x@,
        decreases out@.len() - i,
    {
        let c = out[i].code();
        if c == x.code() {
            proof {
                assert(out@[i as int]@ == x@);
                lemma_code_eq(out@[i as int], x);
                assert forall|y: Lit| #[trigger] out@.contains(y) <==> (old(out)@.contains(y) || y == x) by {
                    if y == x {
                        assert(out@[i as int] == y);
                    }
                }
            }
            return;
        }
        if c > x.code() {
            break;
        }
        i = i + 1;
    }
    let ghost before = out@;
    assert(before == old(out)@);
    out.insert(i, x);
    proof {
        assert forall|a: int, b: int| 0 <= a < b < out@.len() implies (#[trigger] out@[a])@ < (#[trigger] out@[b])@ by {
            if b < i {
                assert(out@[a] == before[a] && out@[b] == before[b]);
            } else if a < i && b == i {
                assert(out@[a] == before[a]);
            } else if a < i {
                assert(out@[a] == before[a]);
                assert(out@[b] == before[b - 1]);
            } else if a == i {
                assert(out@[b] == before[b - 1]);
                if b - 1 > i {
                    assert(before[i as int]@ < before[b - 1]@);
                }
            } else {
                assert(out@[a] == before[a - 1] && out@[b] == before[b - 1]);
            }
        }
        assert forall|y: Lit| #[trigger] out@.contains(y) <==> (before.contains(y) || y == x) by {
            if out@.contains(y) {
                let k = choose|k: int| 0 <= k < out@.len() && #[trigger] out@[k] == y;
                if k < i {
                    assert(before[k] == y);
                } else if k > i {
                    assert(before[k - 1] == y);
                }
            }
            if before.contains(y) {
                let k = choose|k: int| 0 <= k < before.len() && #[trigger] before[k] == y;
                if k < i {
                    assert(out@[k] == y);
                } else {
                    assert(out@[k + 1] == y);
                }
            }
            if y == x {
                assert(out@[i as int] == x);
            }
        }
    }
}

/// Two literals with the same code are the same literal.
pub proof fn lemma_code_eq(a: Lit, b: Lit)
    requires
        a@ == b@,
    ensures
        a == b,
{
    Lit::lemma_view_injective(a, b);
}

/// `y` occurs among the first `j` literals of `c`.
pub open spec fn in_prefix(c: Seq<Lit>, j: int, y: Lit) -> bool {
    exists|k: int| 0 <= k < j && #[trigger] c[k] == y
}

proof fn lemma_in_prefix_all(c: Seq<Lit>)
    ensures
        forall|y: Lit| in_prefix(c, c.len() as int, y) <==> #[trigger] c.contains(y),
{
}

/// The literals of `c`, sorted by code and without repeats.
pub fn canonical(c: &Clause) -> (r: Clause)
    ensures
        strictly_sorted(r@),
        forall|y: Lit| r@.contains(y) <==> c@.contains(y),
{
    let mut r: Clause = Vec::new();
    let mut j: usize = 0;
    while j < c.len()
        invariant
            j <= c@.len(),
            strictly_sorted(r@),
            forall|y: Lit| r@.contains(y) <==> in_prefix(c@, j as int, y),
        decreases c@.len() - j,
    {
        insert_sorted(&mut r, c[j]);
        proof {
            assert forall|y: Lit| r@.contains(y) <==> in_prefix(c@, j + 1, y) by {
                if in_prefix(c@, j + 1, y) {
                    let k = choose|k: int| 0 <= k < j + 1 && #[trigger] c@[k] == y;
                    if k < j {
                        assert(in_prefix(c@, j as int, y));
                    }
                }
                if in_prefix(c@, j as int, y) {
                    let k = choose|k: int| 0 <= k < j && #[trigger] c@[k] == y;
                    assert(in_prefix(c@, j + 1, y));
                }
                if y == c@[j as int] {
                    assert(in_prefix(c@, j + 1, y));
                }
            }
        }
        j = j + 1;
    }
    proof {
        lemma_in_prefix_all(c@);
    }
    r
}

/// The resolvent of `a` and `b` on variable `var`: every literal of either
/// clause whose variable is not `var`, sorted by code, without repeats.
pub fn resolve(a: &Clause, b: &Clause, v: VarId) -> (r: Clause)
    ensures
        strictly_sorted(r@),
        forall|y: Lit| #[trigger] r@.contains(y) <==> ((a@.contains(y) || b@.contains(y)) && y.var_spec() != v as nat),
{
    let mut r: Clause = Vec::new();
    let mut j: usize = 0;
    while j < a.len()
        invariant
            j <= a@.len(),
            strictly_sorted(r@),
            forall|y: Lit| #[trigger] r@.contains(y) <==> (in_prefix(a@, j as int, y) && y.var_spec() != v as nat),
        decreases a@.len() - j,
    {
        let x = a[j];
        let ghost r0 = r@;
        if x.var() != v {
            insert_sorted(&mut r, x);
        }
        proof {
            assert(forall|y: Lit| #[trigger] r0.contains(y) <==> (in_prefix(a@, j as int, y) && y.var_spec() != v as nat));
            assert(forall|y: Lit| #[trigger] r@.contains(y) <==> (r0.contains(y) || (y == x && x.var_spec() != v as nat)));
            assert forall|y: Lit| #[trigger] r@.contains(y) <==> (in_prefix(a@, j + 1, y) && y.var_spec() != v as nat) by {
                if in_prefix(a@, j + 1, y) {
                    let k = choose|k: int| 0 <= k < j + 1 && #[trigger] a@[k] == y;
                    if k < j {
                        assert(in_prefix(a@, j as int, y));
                    }
                }
                if in_prefix(a@, j as int, y) {
                    let k = choose|k: int| 0 <= k < j && #[trigger] a@[k] == y;
                    assert(in_prefix(a@, j + 1, y));
                }
                if y == x {
                    assert(a@[j as int] == y);
                    assert(in_prefix(a@, j + 1, y));
                }
            }
        }
        j = j + 1;
    }
    proof {
        lemma_in_prefix_all(a@);
        assert forall|y: Lit| #[trigger] r@.contains(y) <==> ((a@.contains(y) || in_prefix(b@, 0, y)) && y.var_spec() != v as nat) by {
            assert(in_prefix(a@, a@.len() as int, y) == a@.contains(y));
        }
    }
    let mut j: usize = 0;
    while j < b.len()
        invariant
            j <= b@.len(),
            strictly_sorted(r@),
            forall|y: Lit| #[trigger] r@.contains(y) <==> ((a@.contains(y) || in_prefix(b@, j as int, y)) && y.var_spec() != v as nat),
        decreases b@.len() - j,
    {
        let x = b[j];
        let ghost r0 = r@;
        if x.var() != v {
            insert_sorted(&mut r, x);
        }
        proof {
            assert(forall|y: Lit| #[trigger] r@.contains(y) <==> (r0.contains(y) || (y == x && x.var_spec() != v as nat)));
            assert forall|y: Lit| #[trigger] r@.contains(y) <==> ((a@.contains(y) || in_prefix(b@, j + 1, y)) && y.var_spec() != v as nat) by {
                if in_prefix(b@, j + 1, y) {
                    let k = choose|k: int| 0 <= k < j + 1 && #[trigger] b@[k] == y;
                    if k < j {
                        assert(in_prefix(b@, j as int, y));
                    }
                }
                if in_prefix(b@, j as int, y) {
                    let k = choose|k: int| 0 <= k < j && #[trigger] b@[k] == y;
                    assert(in_prefix(b@, j + 1, y));
                }
                if y == x {
                    assert(b@[j as int] == y);
                    assert(in_prefix(b@, j + 1, y));
                }
            }
        }
        j = j + 1;
    }
    proof {
        lemma_in_prefix_all(b@);
        assert forall|y: Lit| #[trigger] r@.contains(y) <==> ((a@.contains(y) || b@.contains(y)) && y.var_spec() != v as nat) by {
            assert(in_prefix(b@, b@.len() as int, y) == b@.contains(y));
        }
    }
    r
}

/// Resolution is sound: an assignment that satisfies both premises
/// satisfies a clause holding every literal of either premise other than
/// those on `var`, provided `a` only has the literal `na` on `var` and `b`
/// only has its negation.
pub proof fn lemma_resolution_sound(m: Seq<bool>, a: Seq<Lit>, b: Seq<Lit>, r: Seq<Lit>, var: nat)
    requires
        sat_clause(m, a),
        sat_clause(m, b),
        forall|y: Lit| ((a.contains(y) || b.contains(y)) && y.var_spec() != var) ==> r.contains(y),
        forall|y: Lit, z: Lit| a.contains(y) && b.contains(z) && y.var_spec() == var && z.var_spec() == var ==> y.pol_spec() != z.pol_spec(),
    ensures
        sat_clause(m, r),
{
    let ja = choose|j: int| 0 <= j < a.len() && sat_lit(m, #[trigger] a[j]);
    let jb = choose|j: int| 0 <= j < b.len() && sat_lit(m, #[trigger] b[j]);
    let ya = a[ja];
    let yb = b[jb];
    assert(a.contains(ya));
    assert(b.contains(yb));
    if ya.var_spec() != var {
        assert(r.contains(ya));
        let k = choose|k: int| 0 <= k < r.len() && #[trigger] r[k] == ya;
        assert(sat_lit(m, r[k]));
    } else if yb.var_spec() != var {
        assert(r.contains(yb));
        let k = choose|k: int| 0 <= k < r.len() && #[trigger] r[k] == yb;
        assert(sat_lit(m, r[k]));
    } else {
        assert(ya.pol_spec() != yb.pol_spec());
    }
}

} // verus!
