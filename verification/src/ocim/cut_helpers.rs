//! Conditions shared by the cut definitions.
use vstd::prelude::*;
use crate::ocim::auxiliary_methods::{
    get_non_divergent_types, get_projected_end, get_projected_start, is_non_divergent_type,
    is_proj_end, is_proj_start, is_divergent_type,
};
use crate::ocim::common_data::{GlobalData, LocalData, df_count, end_count, set_contains, start_count};
use crate::ocim::model::{
    contains_pair, contains_string, has_edge, lookup_clos, lookup_dfg, lookup_set,
    seq_has,
};

verus! {

/// For every object type shared by `a` and `b`, the graph of that type holds both
/// `a -> b` and `b -> a` with nonzero counts; `b` has an entry in the related map.
pub open spec fn shared_bidirectional(l: LocalData, g: GlobalData, a: Seq<char>, b: Seq<char>) -> bool {
    &&& g.has_rel(b)
    &&& forall|t: Seq<char>| #![trigger g.rel(a, t), g.rel(b, t)]
        g.rel(a, t) && g.rel(b, t) ==> l.has_dfg(t) && l.df(t, a, b) != 0 && l.df(t, b, a) != 0
}

/// Activity `a` has an entry in the related map, and wherever `a` becomes a start
/// (`ends == false`) or end (`ends == true`) activity of one of its related object
/// types once the graph is restricted to `part`, it already was one in the sublog.
pub open spec fn boundary_preserved(l: LocalData, g: GlobalData, part: Seq<String>, a: Seq<char>, ends: bool) -> bool {
    &&& g.has_rel(a)
    &&& forall|t: Seq<char>| #![trigger g.rel(a, t)]
        g.rel(a, t) ==> if ends {
            is_proj_end(l, part, t, a) ==> l.end_count(t, a) != 0
        } else {
            is_proj_start(l, part, t, a) ==> l.start_count(t, a) != 0
        }
}

/// Every activity of every part preserves its start (`ends == false`) or end
/// (`ends == true`) status under the projection onto its part.
pub open spec fn parts_preserve_boundaries(l: LocalData, g: GlobalData, p: Seq<Vec<String>>, ends: bool) -> bool {
    forall|i: int, k: int| 0 <= i < p.len() && 0 <= k < p[i]@.len() ==> boundary_preserved(l, g, p[i]@, (#[trigger] p[i]@[k])@, ends)
}

/// Whether `shared_bidirectional` holds for `a` and `b`.
pub fn check_shared_bidirectional(l: &LocalData, g: &GlobalData, a: &String, b: &String) -> (r: bool)
    requires
        l.wf(),
        g.wf(),
        g.has_rel(a@),
    ensures
        r == shared_bidirectional(*l, *g, a@, b@),
{
    let ra = match lookup_set(&g.related, a) {
        Some(ra) => ra,
        None => { return false; },
    };
    let rb = match lookup_set(&g.related, b) {
        Some(rb) => rb,
        None => { return false; },
    };
    let mut i: usize = 0;
    while i < ra.len()
        invariant
            0 <= i <= ra.len(),
            forall|t: Seq<char>| #![trigger seq_has(ra@, t)] seq_has(ra@, t) <==> g.rel(a@, t),
            forall|t: Seq<char>| #![trigger seq_has(rb@, t)] seq_has(rb@, t) <==> g.rel(b@, t),
            forall|k: int| 0 <= k < i ==> (#[trigger] g.rel(b@, ra@[k]@)) ==>
                l.has_dfg(ra@[k]@) && l.df(ra@[k]@, a@, b@) != 0 && l.df(ra@[k]@, b@, a@) != 0,
        decreases ra.len() - i,
    {
        let ot = &ra[i];
        if contains_string(rb, ot) {
            if lookup_dfg(&l.dfgs, ot).is_none() {
                proof {
                    assert(seq_has(ra@, ot@));
                }
                return false;
            }
            let ab = df_count(l, ot, a, b);
            let ba = df_count(l, ot, b, a);
            if ab == 0 || ba == 0 {
                proof {
                    assert(seq_has(ra@, ot@));
                }
                return false;
            }
        }
        i += 1;
    }
    proof {
        assert forall|t: Seq<char>| #![trigger g.rel(a@, t), g.rel(b@, t)]
            g.rel(a@, t) && g.rel(b@, t) implies l.has_dfg(t) && l.df(t, a@, b@) != 0 && l.df(t, b@, a@) != 0 by {
            assert(seq_has(ra@, t));
            let k = choose|k: int| 0 <= k < ra@.len() && (#[trigger] ra@[k])@ == t;
            assert(g.rel(b@, ra@[k]@));
        }
    }
    true
}

/// Whether every activity of `part` preserves its start (`!ends`) or end (`ends`)
/// status under the projection onto `part`.
pub fn check_part_preserves_boundaries(l: &LocalData, g: &GlobalData, part: &Vec<String>, ends: bool) -> (r: bool)
    requires
        l.wf(),
        g.wf(),
    ensures
        r == forall|k: int| 0 <= k < part@.len() ==> boundary_preserved(*l, *g, part@, (#[trigger] part@[k])@, ends),
{
    let projected = if ends {
        get_projected_end(l, part.as_slice())
    } else {
        get_projected_start(l, part.as_slice())
    };
    let mut k: usize = 0;
    while k < part.len()
        invariant
            0 <= k <= part.len(),
            forall|m: int| 0 <= m < k ==> boundary_preserved(*l, *g, part@, (#[trigger] part@[m])@, ends),
        decreases part.len() - k,
    {
        let a = &part[k];
        let ra = match lookup_set(&g.related, a) {
            Some(ra) => ra,
            None => { return false; },
        };
        let mut i: usize = 0;
        while i < ra.len()
            invariant
                0 <= i <= ra.len(),
                forall|t: Seq<char>| #![trigger seq_has(ra@, t)] seq_has(ra@, t) <==> g.rel(a@, t),
                forall|j: int| 0 <= j < i ==> if ends {
                    is_proj_end(*l, part@, (#[trigger] ra@[j])@, a@) ==> l.end_count(ra@[j]@, a@) != 0
                } else {
                    is_proj_start(*l, part@, ra@[j]@, a@) ==> l.start_count(ra@[j]@, a@) != 0
                },
            decreases ra.len() - i,
        {
            let ot = &ra[i];
            if set_contains(&projected, ot, a) {
                let count = if ends { end_count(l, ot, a) } else { start_count(l, ot, a) };
                if count == 0 {
                    proof {
                        assert(seq_has(ra@, ot@));
                    }
                    return false;
                }
            }
            i += 1;
        }
        proof {
            assert forall|t: Seq<char>| #![trigger g.rel(a@, t)] g.rel(a@, t) implies (if ends {
                is_proj_end(*l, part@, t, a@) ==> l.end_count(t, a@) != 0
            } else {
                is_proj_start(*l, part@, t, a@) ==> l.start_count(t, a@) != 0
            }) by {
                assert(seq_has(ra@, t));
                let j = choose|j: int| 0 <= j < ra@.len() && (#[trigger] ra@[j])@ == t;
            }
        }
        k += 1;
    }
    true
}

/// Whether every activity of every part preserves its start (`!ends`) or end
/// (`ends`) status under the projection onto its part.
pub fn check_parts_preserve_boundaries(l: &LocalData, g: &GlobalData, p: &[Vec<String>], ends: bool) -> (r: bool)
    requires
        l.wf(),
        g.wf(),
    ensures
        r == parts_preserve_boundaries(*l, *g, p@, ends),
{
    let mut i: usize = 0;
    while i < p.len()
        invariant
            0 <= i <= p.len(),
            forall|ii: int, k: int| 0 <= ii < i && 0 <= k < p@[ii]@.len() ==> boundary_preserved(*l, *g, p@[ii]@, (#[trigger] p@[ii]@[k])@, ends),
        decreases p.len() - i,
    {
        if !check_part_preserves_boundaries(l, g, &p[i], ends) {
            return false;
        }
        i += 1;
    }
    true
}

/// A copy of `a` followed by a copy of `b`.
pub fn concat_strings(a: &[String], b: &[String]) -> (r: Vec<String>)
    ensures
        r@ == a@ + b@,
{
    let mut out: Vec<String> = Vec::new();
    let mut i: usize = 0;
    while i < a.len()
        invariant
            0 <= i <= a.len(),
            out@ == a@.subrange(0, i as int),
        decreases a.len() - i,
    {
        out.push(a[i].clone());
        assert(out@ =~= a@.subrange(0, i + 1));
        i += 1;
    }
    let mut j: usize = 0;
    while j < b.len()
        invariant
            0 <= j <= b.len(),
            out@ == a@ + b@.subrange(0, j as int),
        decreases b.len() - j,
    {
        out.push(b[j].clone());
        assert(out@ =~= a@ + b@.subrange(0, j + 1));
        j += 1;
    }
    assert(b@.subrange(0, b@.len() as int) =~= b@);
    out
}


/// Every activity of `pi` has an entry in the related map and is bi-directionally
/// connected, for every shared object type, with every activity of `pj`.
pub open spec fn parts_bidirectional(l: LocalData, g: GlobalData, pi: Seq<String>, pj: Seq<String>) -> bool {
    forall|ka: int| 0 <= ka < pi.len() ==> g.has_rel((#[trigger] pi[ka])@)
        && forall|kb: int| 0 <= kb < pj.len() ==> shared_bidirectional(l, g, pi[ka]@, (#[trigger] pj[kb])@)
}

/// Whether `parts_bidirectional` holds for `pi` and `pj`.
pub fn check_parts_bidirectional(l: &LocalData, g: &GlobalData, pi: &Vec<String>, pj: &Vec<String>) -> (r: bool)
    requires
        l.wf(),
        g.wf(),
    ensures
        r == parts_bidirectional(*l, *g, pi@, pj@),
{
    let mut ka: usize = 0;
    while ka < pi.len()
        invariant
            0 <= ka <= pi.len(),
            forall|m: int| 0 <= m < ka ==> g.has_rel((#[trigger] pi@[m])@)
                && forall|kb: int| 0 <= kb < pj@.len() ==> shared_bidirectional(*l, *g, pi@[m]@, (#[trigger] pj@[kb])@),
        decreases pi.len() - ka,
    {
        let a = &pi[ka];
        if lookup_set(&g.related, a).is_none() {
            return false;
        }
        let mut kb: usize = 0;
        while kb < pj.len()
            invariant
                0 <= kb <= pj.len(),
                g.has_rel(a@),
                forall|m: int| 0 <= m < kb ==> shared_bidirectional(*l, *g, a@, (#[trigger] pj@[m])@),
            decreases pj.len() - kb,
        {
            if !check_shared_bidirectional(l, g, a, &pj[kb]) {
                return false;
            }
            kb += 1;
        }
        ka += 1;
    }
    true
}


/// The graph of `t` exists, and both `a -> b` and `b -> a` have a zero count
/// (`absent`) or both have a nonzero count (`!absent`).
pub open spec fn edges_state(l: LocalData, t: Seq<char>, a: Seq<char>, b: Seq<char>, absent: bool) -> bool {
    l.has_dfg(t) && if absent {
        l.df(t, a, b) == 0 && l.df(t, b, a) == 0
    } else {
        l.df(t, a, b) != 0 && l.df(t, b, a) != 0
    }
}

/// Whether `edges_state` holds for every object type of `types`.
pub fn check_types_edges(l: &LocalData, types: &Vec<String>, a: &String, b: &String, absent: bool) -> (r: bool)
    requires
        l.wf(),
    ensures
        r == forall|t: Seq<char>| #[trigger] seq_has(types@, t) ==> edges_state(*l, t, a@, b@, absent),
{
    let mut k: usize = 0;
    while k < types.len()
        invariant
            0 <= k <= types.len(),
            forall|m: int| 0 <= m < k ==> edges_state(*l, (#[trigger] types@[m])@, a@, b@, absent),
        decreases types.len() - k,
    {
        let ot = &types[k];
        if lookup_dfg(&l.dfgs, ot).is_none() {
            proof {
                assert(seq_has(types@, ot@));
            }
            return false;
        }
        let ab = df_count(l, ot, a, b);
        let ba = df_count(l, ot, b, a);
        let ok = if absent { ab == 0 && ba == 0 } else { ab != 0 && ba != 0 };
        if !ok {
            proof {
                assert(seq_has(types@, ot@));
            }
            return false;
        }
        k += 1;
    }
    proof {
        assert forall|t: Seq<char>| #[trigger] seq_has(types@, t) implies edges_state(*l, t, a@, b@, absent) by {
            let m = choose|m: int| 0 <= m < types@.len() && (#[trigger] types@[m])@ == t;
        }
    }
    true
}


/// Some activity of `pi`, some activity of `pj` and some object type make a
/// non-divergent shared type in the context `pi ++ pj`.
pub open spec fn shares_non_divergent(g: GlobalData, pi: Seq<String>, pj: Seq<String>) -> bool {
    exists|ka: int, kb: int, t: Seq<char>| 0 <= ka < pi.len() && 0 <= kb < pj.len()
        && #[trigger] is_non_divergent_type(g, pi[ka]@, pj[kb]@, pi + pj, t)
}

/// Whether `shares_non_divergent` holds for `pi` and `pj`.
pub fn check_shares_non_divergent(g: &GlobalData, pi: &Vec<String>, pj: &Vec<String>) -> (r: bool)
    requires
        g.wf(),
    ensures
        r == shares_non_divergent(*g, pi@, pj@),
{
    let context = concat_strings(pi.as_slice(), pj.as_slice());
    let ghost ctx = pi@ + pj@;
    let mut ka: usize = 0;
    while ka < pi.len()
        invariant
            0 <= ka <= pi.len(),
            context@ == ctx,
            !exists|m: int, kb: int, t: Seq<char>| 0 <= m < ka && 0 <= kb < pj@.len()
                && #[trigger] is_non_divergent_type(*g, pi@[m]@, pj@[kb]@, ctx, t),
        decreases pi.len() - ka,
    {
        let a = &pi[ka];
        let mut kb: usize = 0;
        while kb < pj.len()
            invariant
                0 <= kb <= pj.len(),
                context@ == ctx,
                !exists|m: int, n: int, t: Seq<char>| 0 <= m < ka && 0 <= n < pj@.len()
                    && #[trigger] is_non_divergent_type(*g, pi@[m]@, pj@[n]@, ctx, t),
                !exists|n: int, t: Seq<char>| 0 <= n < kb && #[trigger] is_non_divergent_type(*g, a@, pj@[n]@, ctx, t),
            decreases pj.len() - kb,
        {
            let nd = get_non_divergent_types(a, &pj[kb], context.as_slice(), g);
            if nd.len() > 0 {
                proof {
                    assert(seq_has(nd@, nd@[0]@));
                    assert(is_non_divergent_type(*g, pi@[ka as int]@, pj@[kb as int]@, ctx, nd@[0]@));
                }
                return true;
            }
            proof {
                assert forall|t: Seq<char>| !is_non_divergent_type(*g, a@, pj@[kb as int]@, ctx, t) by {
                    if is_non_divergent_type(*g, a@, pj@[kb as int]@, ctx, t) {
                        assert(seq_has(nd@, t));
                    }
                }
            }
            kb += 1;
        }
        ka += 1;
    }
    false
}

/// `a` and `b` are ordered: divergent shared types have both edge keys, and
/// non-divergent shared types reach `b` from `a` but not `a` from `b`.
pub open spec fn sequence_ordered(l: LocalData, g: GlobalData, a: Seq<char>, b: Seq<char>, ctx: Seq<String>) -> bool {
    &&& forall|t: Seq<char>| #[trigger] is_divergent_type(g, a, b, ctx, t) ==> l.df_key(t, a, b) && l.df_key(t, b, a)
    &&& forall|t: Seq<char>| #[trigger] is_non_divergent_type(g, a, b, ctx, t) ==>
        l.has_clos(t) && l.reaches(t, a, b) && !l.reaches(t, b, a)
}

/// Whether both edge keys `(a, b)` and `(b, a)` are in the graph of each type of `types`.
pub fn check_types_edge_keys(l: &LocalData, types: &Vec<String>, a: &String, b: &String) -> (r: bool)
    requires
        l.wf(),
    ensures
        r == forall|t: Seq<char>| #[trigger] seq_has(types@, t) ==> l.df_key(t, a@, b@) && l.df_key(t, b@, a@),
{
    let mut k: usize = 0;
    while k < types.len()
        invariant
            0 <= k <= types.len(),
            forall|m: int| 0 <= m < k ==> l.df_key((#[trigger] types@[m])@, a@, b@) && l.df_key(types@[m]@, b@, a@),
        decreases types.len() - k,
    {
        let ot = &types[k];
        let ok = match lookup_dfg(&l.dfgs, ot) {
            Some(dfg) => has_edge(&dfg.edges, a, b) && has_edge(&dfg.edges, b, a),
            None => false,
        };
        if !ok {
            proof {
                assert(seq_has(types@, ot@));
            }
            return false;
        }
        k += 1;
    }
    proof {
        assert forall|t: Seq<char>| #[trigger] seq_has(types@, t) implies l.df_key(t, a@, b@) && l.df_key(t, b@, a@) by {
            let m = choose|m: int| 0 <= m < types@.len() && (#[trigger] types@[m])@ == t;
        }
    }
    true
}

/// Whether each type of `types` has a closure that reaches `b` from `a` and,
/// where `one_way`, does not reach `a` from `b`, or, where `!one_way`, also
/// reaches `a` from `b`.
pub fn check_types_reach(l: &LocalData, types: &Vec<String>, a: &String, b: &String, one_way: bool) -> (r: bool)
    requires
        l.wf(),
    ensures
        r == forall|t: Seq<char>| #[trigger] seq_has(types@, t) ==>
            l.has_clos(t) && l.reaches(t, a@, b@) && (l.reaches(t, b@, a@) != one_way),
{
    let mut k: usize = 0;
    while k < types.len()
        invariant
            0 <= k <= types.len(),
            forall|m: int| 0 <= m < k ==> l.has_clos((#[trigger] types@[m])@) && l.reaches(types@[m]@, a@, b@)
                && (l.reaches(types@[m]@, b@, a@) != one_way),
        decreases types.len() - k,
    {
        let ot = &types[k];
        let ok = match lookup_clos(&l.clos, ot) {
            Some(pairs) => contains_pair(pairs, a, b) && (contains_pair(pairs, b, a) != one_way),
            None => false,
        };
        if !ok {
            proof {
                assert(seq_has(types@, ot@));
            }
            return false;
        }
        k += 1;
    }
    proof {
        assert forall|t: Seq<char>| #[trigger] seq_has(types@, t) implies
            l.has_clos(t) && l.reaches(t, a@, b@) && (l.reaches(t, b@, a@) != one_way) by {
            let m = choose|m: int| 0 <= m < types@.len() && (#[trigger] types@[m])@ == t;
        }
    }
    true
}

/// The concatenation of the parts, in order.
pub open spec fn flatten_parts(p: Seq<Vec<String>>) -> Seq<String>
    decreases p.len(),
{
    if p.len() == 0 {
        Seq::empty()
    } else {
        flatten_parts(p.drop_last()) + p.last()@
    }
}

/// The concatenation of the parts `i..=j`.
pub open spec fn segment(p: Seq<Vec<String>>, i: int, j: int) -> Seq<String> {
    flatten_parts(p.subrange(i, j + 1))
}

/// A copy of the concatenation of the parts `i..=j`.
pub fn flatten_range(p: &[Vec<String>], i: usize, j: usize) -> (r: Vec<String>)
    requires
        i <= j < p@.len(),
    ensures
        r@ == segment(p@, i as int, j as int),
{
    let mut out: Vec<String> = Vec::new();
    let mut k: usize = i;
    assert(p@.subrange(i as int, i as int) =~= Seq::<Vec<String>>::empty());
    while k <= j
        invariant
            i <= k <= j + 1,
            j < p@.len(),
            out@ == flatten_parts(p@.subrange(i as int, k as int)),
        decreases j + 1 - k,
    {
        let ghost before = out@;
        let part_copy = concat_strings(out.as_slice(), p[k].as_slice());
        out = part_copy;
        assert(p@.subrange(i as int, k + 1).drop_last() =~= p@.subrange(i as int, k as int));
        assert(p@.subrange(i as int, k + 1).last() == p@[k as int]);
        k += 1;
    }
    out
}

} // verus!
