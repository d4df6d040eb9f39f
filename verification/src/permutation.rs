//! Permutations of positions.
use vstd::prelude::*;

verus! {

/// `perm` lists each position of a sequence of length `n` once.
pub open spec fn is_permutation(perm: Seq<int>, n: int) -> bool {
    &&& perm.len() == n
    &&& forall|k: int| 0 <= k < n ==> 0 <= #[trigger] perm[k] < n
    &&& forall|k1: int, k2: int| 0 <= k1 < n && 0 <= k2 < n && k1 != k2 ==> #[trigger] perm[k1] != #[trigger] perm[k2]
}

/// A permutation of `0..n` reaches every position.
pub proof fn lemma_permutation_onto(perm: Seq<int>, n: int, q: int)
    requires
        is_permutation(perm, n),
        0 <= q < n,
    ensures
        exists|m: int| 0 <= m < n && perm[m] == q,
{
    if !(exists|m: int| 0 <= m < n && perm[m] == q) {
        // then `perm` maps `n` positions one-to-one into the `n - 1` values other than `q`
        let s = Set::new(|x: int| 0 <= x < n && x != q);
        let img = perm.to_set();
        assert forall|x: int| img.contains(x) implies s.contains(x) by {
            let m = choose|m: int| 0 <= m < perm.len() && perm[m] == x;
        }
        assert(s =~= vstd::set_lib::set_int_range(0, n).remove(q));
        vstd::set_lib::lemma_int_range(0, n);
        vstd::set_lib::lemma_len_subset(img, s);
        assert(perm.no_duplicates()) by {
            assert forall|i: int, j: int| 0 <= i < perm.len() && 0 <= j < perm.len() && i != j implies perm[i] != perm[j] by {}
        }
        perm.unique_seq_to_set();
        assert(img.len() == n);
        assert(s.len() == n - 1);
    }
}

} // verus!
