//! The exclusive-choice cut (Section 3.1, Eq. 18-22).
use vstd::prelude::*;
use crate::ocim::auxiliary_methods::{
    covers_alphabet, get_divergent_types, get_non_divergent_types, is_divergent_type,
    is_non_divergent_type, partitions_cover_alphabet,
};
use crate::ocim::common_data::{GlobalData, LocalData};
use crate::ocim::cut_helpers::{
    check_parts_preserve_boundaries, check_types_edges, concat_strings, edges_state,
    parts_preserve_boundaries,
};
use crate::ocim::model::seq_has;

verus! {

/// Eq. 20 for one pair: non-divergent shared types have no edge between `a` and `b`.
pub open spec fn no_cross_edges(l: LocalData, g: GlobalData, a: Seq<char>, b: Seq<char>, ctx: Seq<String>) -> bool {
    forall|t: Seq<char>| #[trigger] is_non_divergent_type(g, a, b, ctx, t) ==> edges_state(l, t, a, b, true)
}

/// Eq. 21 for one pair: divergent shared types connect `a` and `b` both ways.
pub open spec fn divergent_bidirectional(l: LocalData, g: GlobalData, a: Seq<char>, b: Seq<char>, ctx: Seq<String>) -> bool {
    forall|t: Seq<char>| #[trigger] is_divergent_type(g, a, b, ctx, t) ==> edges_state(l, t, a, b, false)
}

/// Eq. 20-22 for the parts `pi` and `pj`, with context `pi ++ pj`.
pub open spec fn exclusive_pair_valid(l: LocalData, g: GlobalData, pi: Seq<String>, pj: Seq<String>) -> bool {
    &&& forall|ka: int, kb: int| 0 <= ka < pi.len() && 0 <= kb < pj.len() ==>
        no_cross_edges(l, g, (#[trigger] pi[ka])@, (#[trigger] pj[kb])@, pi + pj)
    &&& forall|ka: int, kb: int| 0 <= ka < pi.len() && 0 <= kb < pj.len() ==>
        divergent_bidirectional(l, g, (#[trigger] pi[ka])@, (#[trigger] pj[kb])@, pi + pj)
    &&& exists|ka: int, kb: int, t: Seq<char>| 0 <= ka < pi.len() && 0 <= kb < pj.len()
        && #[trigger] is_non_divergent_type(g, pi[ka]@, pj[kb]@, pi + pj, t)
}

/// The exclusive-choice cut definition: cover, Eq. 18, Eq. 19, and Eq. 20-22 for
/// every pair of parts.
pub open spec fn exclusive_cut_valid(l: LocalData, g: GlobalData, p: Seq<Vec<String>>) -> bool {
    &&& covers_alphabet(p, l.alphabet@)
    &&& parts_preserve_boundaries(l, g, p, false)
    &&& parts_preserve_boundaries(l, g, p, true)
    &&& forall|i: int, j: int| 0 <= i < j < p.len() ==> #[trigger] exclusive_pair_valid(l, g, p[i]@, p[j]@)
}

/// Whether Eq. 20-22 hold for the parts `pi` and `pj`.
fn check_exclusive_pair(l: &LocalData, g: &GlobalData, pi: &Vec<String>, pj: &Vec<String>) -> (r: bool)
    requires
        l.wf(),
        g.wf(),
    ensures
        r == exclusive_pair_valid(*l, *g, pi@, pj@),
{
    let context = concat_strings(pi.as_slice(), pj.as_slice());
    let ghost ctx = pi@ + pj@;
    let mut ok20 = true;
    let mut ok21 = true;
    let mut found = false;
    let mut ka: usize = 0;
    while ka < pi.len()
        invariant
            0 <= ka <= pi.len(),
            context@ == ctx,
            ok20 == forall|m: int, kb: int| 0 <= m < ka && 0 <= kb < pj@.len() ==>
                no_cross_edges(*l, *g, (#[trigger] pi@[m])@, (#[trigger] pj@[kb])@, ctx),
            ok21 == forall|m: int, kb: int| 0 <= m < ka && 0 <= kb < pj@.len() ==>
                divergent_bidirectional(*l, *g, (#[trigger] pi@[m])@, (#[trigger] pj@[kb])@, ctx),
            found == exists|m: int, kb: int, t: Seq<char>| 0 <= m < ka && 0 <= kb < pj@.len()
                && #[trigger] is_non_divergent_type(*g, pi@[m]@, pj@[kb]@, ctx, t),
        decreases pi.len() - ka,
    {
        let a = &pi[ka];
        let mut kb: usize = 0;
        let ghost ok20_before = ok20;
        let ghost ok21_before = ok21;
        let ghost found_before = found;
        while kb < pj.len()
            invariant
                0 <= kb <= pj.len(),
                ok20 == (ok20_before && forall|n: int| 0 <= n < kb ==> no_cross_edges(*l, *g, a@, (#[trigger] pj@[n])@, ctx)),
                ok21 == (ok21_before && forall|n: int| 0 <= n < kb ==> divergent_bidirectional(*l, *g, a@, (#[trigger] pj@[n])@, ctx)),
                found == (found_before || exists|n: int, t: Seq<char>| 0 <= n < kb && #[trigger] is_non_divergent_type(*g, a@, pj@[n]@, ctx, t)),
            decreases pj.len() - kb,
        {
            let b = &pj[kb];
            let nd = get_non_divergent_types(a, b, context.as_slice(), g);
            let dv = get_divergent_types(a, b, context.as_slice(), g);
            let c20 = check_types_edges(l, &nd, a, b, true);
            let c21 = check_types_edges(l, &dv, a, b, false);
            proof {
                assert(c20 == no_cross_edges(*l, *g, a@, b@, ctx)) by {
                    if c20 {
                        assert forall|t: Seq<char>| #[trigger] is_non_divergent_type(*g, a@, b@, ctx, t) implies edges_state(*l, t, a@, b@, true) by {
                            assert(seq_has(nd@, t));
                        }
                    } else {
                        let t = choose|t: Seq<char>| #[trigger] seq_has(nd@, t) && !edges_state(*l, t, a@, b@, true);
                        assert(is_non_divergent_type(*g, a@, b@, ctx, t));
                    }
                }
                assert(c21 == divergent_bidirectional(*l, *g, a@, b@, ctx)) by {
                    if c21 {
                        assert forall|t: Seq<char>| #[trigger] is_divergent_type(*g, a@, b@, ctx, t) implies edges_state(*l, t, a@, b@, false) by {
                            assert(seq_has(dv@, t));
                        }
                    } else {
                        let t = choose|t: Seq<char>| #[trigger] seq_has(dv@, t) && !edges_state(*l, t, a@, b@, false);
                        assert(is_divergent_type(*g, a@, b@, ctx, t));
                    }
                }
                assert((nd.len() > 0) == exists|t: Seq<char>| #[trigger] is_non_divergent_type(*g, a@, b@, ctx, t)) by {
                    if nd.len() > 0 {
                        assert(seq_has(nd@, nd@[0]@));
                    }
                    if exists|t: Seq<char>| #[trigger] is_non_divergent_type(*g, a@, b@, ctx, t) {
                        let t = choose|t: Seq<char>| #[trigger] is_non_divergent_type(*g, a@, b@, ctx, t);
                        assert(seq_has(nd@, t));
                    }
                }
            }
            let ghost f0 = found;
            ok20 = ok20 && c20;
            ok21 = ok21 && c21;
            found = found || nd.len() > 0;
            proof {
                let kk = kb as int;
                assert((forall|n: int| 0 <= n < kk + 1 ==> no_cross_edges(*l, *g, a@, (#[trigger] pj@[n])@, ctx))
                    == ((forall|n: int| 0 <= n < kk ==> no_cross_edges(*l, *g, a@, (#[trigger] pj@[n])@, ctx)) && c20));
                assert((forall|n: int| 0 <= n < kk + 1 ==> divergent_bidirectional(*l, *g, a@, (#[trigger] pj@[n])@, ctx))
                    == ((forall|n: int| 0 <= n < kk ==> divergent_bidirectional(*l, *g, a@, (#[trigger] pj@[n])@, ctx)) && c21));
                if exists|n: int, t: Seq<char>| 0 <= n < kk + 1 && #[trigger] is_non_divergent_type(*g, a@, pj@[n]@, ctx, t) {
                    let (n, t) = choose|n: int, t: Seq<char>| 0 <= n < kk + 1 && #[trigger] is_non_divergent_type(*g, a@, pj@[n]@, ctx, t);
                    if n < kk {
                        assert(exists|n2: int, t2: Seq<char>| 0 <= n2 < kk && #[trigger] is_non_divergent_type(*g, a@, pj@[n2]@, ctx, t2));
                    }
                }
                if nd.len() > 0 {
                    let t = choose|t: Seq<char>| #[trigger] is_non_divergent_type(*g, a@, b@, ctx, t);
                    assert(exists|n2: int, t2: Seq<char>| 0 <= n2 < kk + 1 && #[trigger] is_non_divergent_type(*g, a@, pj@[n2]@, ctx, t2));
                }
                if exists|n: int, t: Seq<char>| 0 <= n < kk && #[trigger] is_non_divergent_type(*g, a@, pj@[n]@, ctx, t) {
                    let (n, t) = choose|n: int, t: Seq<char>| 0 <= n < kk && #[trigger] is_non_divergent_type(*g, a@, pj@[n]@, ctx, t);
                    assert(exists|n2: int, t2: Seq<char>| 0 <= n2 < kk + 1 && #[trigger] is_non_divergent_type(*g, a@, pj@[n2]@, ctx, t2));
                }
            }
            kb += 1;
        }
        proof {
            let kk = ka as int;
            assert(ok20 == forall|m: int, n: int| 0 <= m < kk + 1 && 0 <= n < pj@.len() ==>
                no_cross_edges(*l, *g, (#[trigger] pi@[m])@, (#[trigger] pj@[n])@, ctx));
            assert(ok21 == forall|m: int, n: int| 0 <= m < kk + 1 && 0 <= n < pj@.len() ==>
                divergent_bidirectional(*l, *g, (#[trigger] pi@[m])@, (#[trigger] pj@[n])@, ctx));
            if exists|m: int, n: int, t: Seq<char>| 0 <= m < kk + 1 && 0 <= n < pj@.len()
                && #[trigger] is_non_divergent_type(*g, pi@[m]@, pj@[n]@, ctx, t) {
                let (m, n, t) = choose|m: int, n: int, t: Seq<char>| 0 <= m < kk + 1 && 0 <= n < pj@.len()
                    && #[trigger] is_non_divergent_type(*g, pi@[m]@, pj@[n]@, ctx, t);
                if m < kk {
                    assert(found_before);
                } else {
                    assert(exists|n2: int, t2: Seq<char>| 0 <= n2 < pj@.len() && #[trigger] is_non_divergent_type(*g, a@, pj@[n2]@, ctx, t2));
                }
            }
            if found {
                if !found_before {
                    let (n, t) = choose|n: int, t: Seq<char>| 0 <= n < pj@.len() && #[trigger] is_non_divergent_type(*g, a@, pj@[n]@, ctx, t);
                    assert(is_non_divergent_type(*g, pi@[kk]@, pj@[n]@, ctx, t));
                } else {
                    let (m, n, t) = choose|m: int, n: int, t: Seq<char>| 0 <= m < kk && 0 <= n < pj@.len()
                        && #[trigger] is_non_divergent_type(*g, pi@[m]@, pj@[n]@, ctx, t);
                    assert(is_non_divergent_type(*g, pi@[m]@, pj@[n]@, ctx, t));
                }
            }
        }
        ka += 1;
    }
    ok20 && ok21 && found
}

/// Checks the exclusive-choice cut definition (Section 3.1, Eq. 18-22).
pub fn is_exclusive_cut_valid(local_data: &LocalData, global_data: &GlobalData, partition_list: &[Vec<String>]) -> (r: bool)
    requires
        local_data.wf(),
        global_data.wf(),
    ensures
        r == exclusive_cut_valid(*local_data, *global_data, partition_list@),
{
    if !partitions_cover_alphabet(partition_list, local_data.alphabet.as_slice()) {
        return false;
    }
    if !check_parts_preserve_boundaries(local_data, global_data, partition_list, false) {
        return false;
    }
    if !check_parts_preserve_boundaries(local_data, global_data, partition_list, true) {
        return false;
    }
    let p = partition_list;
    let mut i: usize = 0;
    while i < p.len()
        invariant
            0 <= i <= p.len(),
            forall|a: int, b: int| 0 <= a < i && a < b < p@.len() ==> #[trigger] exclusive_pair_valid(*local_data, *global_data, p@[a]@, p@[b]@),
        decreases p.len() - i,
    {
        let mut j: usize = i + 1;
        while j < p.len()
            invariant
                i < p.len(),
                i + 1 <= j <= p.len(),
                forall|a: int, b: int| 0 <= a < i && a < b < p@.len() ==> #[trigger] exclusive_pair_valid(*local_data, *global_data, p@[a]@, p@[b]@),
                forall|b: int| i < b < j ==> #[trigger] exclusive_pair_valid(*local_data, *global_data, p@[i as int]@, p@[b]@),
            decreases p.len() - j,
        {
            if !check_exclusive_pair(local_data, global_data, &p[i], &p[j]) {
                return false;
            }
            j += 1;
        }
        i += 1;
    }
    true
}

} // verus!
