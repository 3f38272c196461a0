use vstd::prelude::*;
use vstd::arithmetic::power2::{pow2, lemma_pow2_unfold};
use vstd::set_lib::{lemma_map_size, lemma_len_subset, lemma_set_disjoint_lens};

verus! {

/// A finite family of subsets of a finite set `u` has at most `2^|u|`
/// members.
pub proof fn lemma_family_bound(fam: Set<Set<int>>, u: Set<int>)
    requires
        u.finite(),
        fam.finite(),
        forall|s: Set<int>| #[trigger] fam.contains(s) ==> s.subset_of(u),
    ensures
        fam.len() <= pow2(u.len()),
    decreases u.len(),
{
    if u.len() == 0 {
        assert(u =~= Set::empty());
        let single = Set::<Set<int>>::empty().insert(Set::empty());
        assert forall|s: Set<int>| #[trigger] fam.contains(s) implies single.contains(s) by {
            assert(s =~= Set::empty());
        }
        lemma_len_subset(fam, single);
        assert(pow2(0) == 1) by {
            vstd::arithmetic::power2::lemma2_to64();
        }
    } else {
        let x = u.choose();
        let u2 = u.remove(x);
        let f1 = fam.filter(|s: Set<int>| !s.contains(x));
        let f2 = fam.filter(|s: Set<int>| s.contains(x));
        let g = |s: Set<int>| s.remove(x);
        let f2m = f2.map(g);
        assert forall|s1: Set<int>, s2: Set<int>|
            f2.contains(s1) && f2.contains(s2) && #[trigger] g(s1) == #[trigger] g(s2) implies s1 == s2 by {
            assert(s1 =~= g(s1).insert(x));
            assert(s2 =~= g(s2).insert(x));
        }
        assert(vstd::relations::injective_on(g, f2));
        lemma_map_size(f2, f2m, g);
        assert forall|s: Set<int>| #[trigger] f1.contains(s) implies s.subset_of(u2) by {}
        assert forall|s: Set<int>| #[trigger] f2m.contains(s) implies s.subset_of(u2) by {
            let t = choose|t: Set<int>| f2.contains(t) && g(t) == s;
        }
        lemma_family_bound(f1, u2);
        lemma_family_bound(f2m, u2);
        assert(f1.disjoint(f2));
        lemma_set_disjoint_lens(f1, f2);
        assert(fam =~= f1 + f2);
        lemma_pow2_unfold(u.len());
    }
}

} // verus!
