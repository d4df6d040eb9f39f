//! Detection of an exclusive-choice cut: activities that some shared object type
//! ties together form the parts; a second round also joins parts that the
//! exclusivity between parts cannot separate.
use vstd::prelude::*;
use crate::ocim::auxiliary_methods::{
    get_divergent_types, get_non_divergent_types, is_divergent_type, is_non_divergent_type,
    is_proj_end, is_proj_start,
};
use crate::ocim::common_data::{GlobalData, LocalData, df_count, end_count, set_contains, start_count};
use crate::ocim::components::{
    group_indices, is_component_grouping, marked_edges, square, union_components,
};
use crate::ocim::concurrent_cut_detection::{build_lookups, lookups_ok, parts_listing, parts_of_groups, without};
use crate::ocim::cut_helpers::concat_strings;
use crate::ocim::exclusive_cut::{exclusive_cut_valid, is_exclusive_cut_valid};
use crate::ocim::model::{contains_string, lookup_dfg, lookup_set, seq_has};
use crate::ocpt::OCPTOperatorType;

verus! {

/// Object type `t`, shared by `a` and `b`, ties them together: it has no graph;
/// or they follow each other in some direction without both diverging on `t`;
/// or they both diverge on `t` and follow each other in one direction only; or
/// `b` becomes a start (end) activity once `a` is removed while `a` is a start
/// (end) and `b` is not.
pub open spec fn excl_conflict(l: LocalData, g: GlobalData, a: Seq<char>, b: Seq<char>, t: Seq<char>) -> bool {
    let ab = l.df(t, a, b);
    let ba = l.df(t, b, a);
    let both_divergent = g.div(a, t) && g.div(b, t);
    ||| !l.has_dfg(t)
    ||| ((ab > 0 || ba > 0) && !both_divergent)
    ||| (((ab > 0 && ba == 0) || (ab == 0 && ba > 0)) && both_divergent)
    ||| (l.start_count(t, a) > 0 && l.start_count(t, b) == 0 && is_proj_start(l, without(l.alphabet@, a), t, b))
    ||| (l.end_count(t, a) > 0 && l.end_count(t, b) == 0 && is_proj_end(l, without(l.alphabet@, a), t, b))
}

/// Some object type shared by `a` and `b` ties them together.
pub open spec fn excl_check(l: LocalData, g: GlobalData, a: Seq<char>, b: Seq<char>) -> bool {
    &&& g.has_rel(a)
    &&& g.has_rel(b)
    &&& exists|t: Seq<char>| #![trigger g.rel(a, t), g.rel(b, t)] g.rel(a, t) && g.rel(b, t) && excl_conflict(l, g, a, b, t)
}

/// The pairs `i < j` of alphabet positions that the first round joins.
pub open spec fn excl_edges(l: LocalData, g: GlobalData) -> spec_fn(int, int) -> bool {
    |i: int, j: int| 0 <= i < j < l.alphabet@.len() && (
        l.alphabet@[i]@ == l.alphabet@[j]@
        || excl_check(l, g, l.alphabet@[i]@, l.alphabet@[j]@)
        || excl_check(l, g, l.alphabet@[j]@, l.alphabet@[i]@))
}

/// Parts `si` and `sj` cannot be told apart as alternatives: a type divergent
/// across both lacks an edge between two of their activities (or has no graph),
/// or no pair of their activities shares a non-divergent type.
pub open spec fn parts_inseparable(l: LocalData, g: GlobalData, si: Seq<String>, sj: Seq<String>) -> bool {
    let ctx = sj + si;
    ||| exists|ka: int, kb: int, t: Seq<char>| 0 <= ka < si.len() && 0 <= kb < sj.len()
        && #[trigger] is_divergent_type(g, si[ka]@, sj[kb]@, ctx, t)
        && (!l.has_dfg(t) || l.df(t, si[ka]@, sj[kb]@) == 0 || l.df(t, sj[kb]@, si[ka]@) == 0)
    ||| forall|ka: int, kb: int, t: Seq<char>| 0 <= ka < si.len() && 0 <= kb < sj.len()
        ==> !#[trigger] is_non_divergent_type(g, si[ka]@, sj[kb]@, ctx, t)
}

/// Part `k` is the first part that holds `x`.
pub open spec fn first_part(p: Seq<Vec<String>>, x: Seq<char>, k: int) -> bool {
    0 <= k < p.len() && seq_has(p[k]@, x) && forall|h: int| 0 <= h < k ==> !seq_has(#[trigger] p[h]@, x)
}

/// The pairs `i < j` that the second round joins, given the parts of the first.
pub open spec fn excl_edges2(l: LocalData, g: GlobalData, p: Seq<Vec<String>>) -> spec_fn(int, int) -> bool {
    |i: int, j: int| excl_edges(l, g)(i, j) || (0 <= i < j < l.alphabet@.len()
        && exists|pi: int, pj: int| #[trigger] first_part(p, l.alphabet@[i]@, pi) && #[trigger] first_part(p, l.alphabet@[j]@, pj)
            && parts_inseparable(l, g, p[pi]@, p[pj]@))
}

/// What the detection answers for the parts of the two rounds.
pub open spec fn exclusive_outcome(l: LocalData, g: GlobalData, p1: Seq<Vec<String>>, r: Option<(Vec<Vec<String>>, OCPTOperatorType)>) -> bool {
    if p1.len() == 1 {
        r is None
    } else {
        exists|groups2: Seq<Vec<usize>>, p2: Seq<Vec<String>>|
            #[trigger] is_component_grouping(groups2, excl_edges2(l, g, p1), l.alphabet@.len() as int)
            && #[trigger] parts_listing(p2, groups2, l.alphabet@)
            && if p2.len() == 1 || !exclusive_cut_valid(l, g, p2) {
                r is None
            } else {
                r matches Some((parts, op)) && parts@ == p2 && op is ExclusiveChoice
            }
    }
}

/// Whether `excl_check` holds for the activities at positions `i` and `j`.
fn check_exclusive_1(
    l: &LocalData,
    g: &GlobalData,
    i: usize,
    j: usize,
    lookups: &Vec<(Vec<(String, Vec<String>)>, Vec<(String, Vec<String>)>)>,
) -> (r: bool)
    requires
        l.wf(),
        g.wf(),
        lookups_ok(*l, lookups@),
        i < l.alphabet@.len(),
        j < l.alphabet@.len(),
    ensures
        r == excl_check(*l, *g, l.alphabet@[i as int]@, l.alphabet@[j as int]@),
{
    let a = &l.alphabet[i];
    let b = &l.alphabet[j];
    let rel_a = match lookup_set(&g.related, a) {
        None => return false,
        Some(r) => r,
    };
    let rel_b = match lookup_set(&g.related, b) {
        None => return false,
        Some(r) => r,
    };
    let mut k: usize = 0;
    while k < rel_a.len()
        invariant
            0 <= k <= rel_a@.len(),
            l.wf(),
            g.wf(),
            lookups_ok(*l, lookups@),
            i < l.alphabet@.len(),
            *a == l.alphabet@[i as int],
            *b == l.alphabet@[j as int],
            forall|t: Seq<char>| #![trigger seq_has(rel_a@, t)] seq_has(rel_a@, t) <==> g.rel(a@, t),
            forall|t: Seq<char>| #![trigger seq_has(rel_b@, t)] seq_has(rel_b@, t) <==> g.rel(b@, t),
            forall|q: int| 0 <= q < k ==> !(g.rel(b@, (#[trigger] rel_a@[q])@) && excl_conflict(*l, *g, a@, b@, rel_a@[q]@)),
        decreases rel_a@.len() - k,
    {
        let t = &rel_a[k];
        proof {
            assert(seq_has(rel_a@, t@));
        }
        if contains_string(rel_b, t) {
            if lookup_dfg(&l.dfgs, t).is_none() {
                return true;
            }
            let ab = df_count(l, t, a, b);
            let ba = df_count(l, t, b, a);
            let both_divergent = set_contains(&g.divergence, a, t) && set_contains(&g.divergence, b, t);
            if (ab > 0 || ba > 0) && !both_divergent {
                return true;
            }
            if ((ab > 0 && ba == 0) || (ab == 0 && ba > 0)) && both_divergent {
                return true;
            }
            if start_count(l, t, a) > 0 && start_count(l, t, b) == 0 && set_contains(&lookups[i].0, t, b) {
                return true;
            }
            if end_count(l, t, a) > 0 && end_count(l, t, b) == 0 && set_contains(&lookups[i].1, t, b) {
                return true;
            }
        }
        k += 1;
    }
    proof {
        assert forall|t: Seq<char>| g.rel(a@, t) && g.rel(b@, t) implies !excl_conflict(*l, *g, a@, b@, t) by {
            assert(seq_has(rel_a@, t));
            let q = choose|q: int| 0 <= q < rel_a@.len() && (#[trigger] rel_a@[q])@ == t;
        }
    }
    false
}

/// Whether `parts_inseparable` holds for `si` and `sj`.
fn check_exclusive_2(l: &LocalData, g: &GlobalData, si: &Vec<String>, sj: &Vec<String>) -> (r: bool)
    requires
        l.wf(),
        g.wf(),
    ensures
        r == parts_inseparable(*l, *g, si@, sj@),
{
    let context = concat_strings(sj.as_slice(), si.as_slice());
    let ghost ctx = sj@ + si@;
    let mut ka: usize = 0;
    while ka < si.len()
        invariant
            0 <= ka <= si@.len(),
            l.wf(),
            g.wf(),
            context@ == ctx,
            forall|x: int, y: int, t: Seq<char>| 0 <= x < ka && 0 <= y < sj@.len() && #[trigger] is_divergent_type(*g, si@[x]@, sj@[y]@, ctx, t)
                ==> !(!l.has_dfg(t) || l.df(t, si@[x]@, sj@[y]@) == 0 || l.df(t, sj@[y]@, si@[x]@) == 0),
        decreases si@.len() - ka,
    {
        let mut kb: usize = 0;
        while kb < sj.len()
            invariant
                0 <= ka < si@.len(),
                0 <= kb <= sj@.len(),
                l.wf(),
                g.wf(),
                context@ == ctx,
                forall|x: int, y: int, t: Seq<char>| 0 <= x < ka && 0 <= y < sj@.len() && #[trigger] is_divergent_type(*g, si@[x]@, sj@[y]@, ctx, t)
                    ==> !(!l.has_dfg(t) || l.df(t, si@[x]@, sj@[y]@) == 0 || l.df(t, sj@[y]@, si@[x]@) == 0),
                forall|y: int, t: Seq<char>| 0 <= y < kb && #[trigger] is_divergent_type(*g, si@[ka as int]@, sj@[y]@, ctx, t)
                    ==> !(!l.has_dfg(t) || l.df(t, si@[ka as int]@, sj@[y]@) == 0 || l.df(t, sj@[y]@, si@[ka as int]@) == 0),
            decreases sj@.len() - kb,
        {
            let a = &si[ka];
            let b = &sj[kb];
            let types = get_divergent_types(a, b, context.as_slice(), g);
            let mut m: usize = 0;
            while m < types.len()
                invariant
                    0 <= m <= types@.len(),
                    l.wf(),
                    forall|q: int| 0 <= q < m ==> !(!l.has_dfg((#[trigger] types@[q])@) || l.df(types@[q]@, a@, b@) == 0 || l.df(types@[q]@, b@, a@) == 0),
                decreases types@.len() - m,
            {
                let t = &types[m];
                if lookup_dfg(&l.dfgs, t).is_none() {
                    proof {
                        assert(seq_has(types@, t@));
                    }
                    return true;
                }
                let ab = df_count(l, t, a, b);
                let ba = df_count(l, t, b, a);
                if ab == 0 || ba == 0 {
                    proof {
                        assert(seq_has(types@, t@));
                    }
                    return true;
                }
                m += 1;
            }
            proof {
                assert forall|t: Seq<char>| #[trigger] is_divergent_type(*g, si@[ka as int]@, sj@[kb as int]@, ctx, t)
                    implies !(!l.has_dfg(t) || l.df(t, si@[ka as int]@, sj@[kb as int]@) == 0 || l.df(t, sj@[kb as int]@, si@[ka as int]@) == 0) by {
                    assert(seq_has(types@, t));
                    let q = choose|q: int| 0 <= q < types@.len() && (#[trigger] types@[q])@ == t;
                }
            }
            kb += 1;
        }
        ka += 1;
    }
    // no divergent type separates them: inseparable if no pair shares a non-divergent type
    let mut ka: usize = 0;
    while ka < si.len()
        invariant
            0 <= ka <= si@.len(),
            g.wf(),
            context@ == ctx,
            forall|x: int, y: int, t: Seq<char>| 0 <= x < ka && 0 <= y < sj@.len() ==> !#[trigger] is_non_divergent_type(*g, si@[x]@, sj@[y]@, ctx, t),
        decreases si@.len() - ka,
    {
        let mut kb: usize = 0;
        while kb < sj.len()
            invariant
                0 <= ka < si@.len(),
                0 <= kb <= sj@.len(),
                g.wf(),
                context@ == ctx,
                forall|x: int, y: int, t: Seq<char>| 0 <= x < ka && 0 <= y < sj@.len() ==> !#[trigger] is_non_divergent_type(*g, si@[x]@, sj@[y]@, ctx, t),
                forall|y: int, t: Seq<char>| 0 <= y < kb ==> !#[trigger] is_non_divergent_type(*g, si@[ka as int]@, sj@[y]@, ctx, t),
            decreases sj@.len() - kb,
        {
            let types = get_non_divergent_types(&si[ka], &sj[kb], context.as_slice(), g);
            if types.len() > 0 {
                proof {
                    assert(seq_has(types@, types@[0]@));
                    assert(is_non_divergent_type(*g, si@[ka as int]@, sj@[kb as int]@, ctx, types@[0]@));
                }
                return false;
            }
            proof {
                assert forall|t: Seq<char>| !#[trigger] is_non_divergent_type(*g, si@[ka as int]@, sj@[kb as int]@, ctx, t) by {
                    if is_non_divergent_type(*g, si@[ka as int]@, sj@[kb as int]@, ctx, t) {
                        assert(seq_has(types@, t));
                    }
                }
            }
            kb += 1;
        }
        ka += 1;
    }
    true
}

proof fn lemma_first_part_unique(p: Seq<Vec<String>>, x: Seq<char>, k1: int, k2: int)
    requires
        first_part(p, x, k1),
        first_part(p, x, k2),
    ensures
        k1 == k2,
{
    if k1 < k2 {
        assert(!seq_has(p[k1]@, x));
    } else if k2 < k1 {
        assert(!seq_has(p[k2]@, x));
    }
}

/// The first part that holds `x`, if any.
fn find_first_part(p: &Vec<Vec<String>>, x: &String) -> (r: Option<usize>)
    ensures
        r matches Some(k) ==> first_part(p@, x@, k as int),
        r is None ==> forall|h: int| 0 <= h < p@.len() ==> !seq_has(#[trigger] p@[h]@, x@),
{
    let mut k: usize = 0;
    while k < p.len()
        invariant
            0 <= k <= p@.len(),
            forall|h: int| 0 <= h < k ==> !seq_has(#[trigger] p@[h]@, x@),
        decreases p@.len() - k,
    {
        if contains_string(&p[k], x) {
            return Some(k);
        }
        k += 1;
    }
    None
}

/// Detects an exclusive-choice cut: activities tied by some shared object type
/// form the parts; a second round also joins activities whose parts are
/// inseparable; the result must satisfy the exclusive-choice cut definition.
pub fn find_cut_exclusive(local_data: &LocalData, global_data: &GlobalData) -> (r: Option<(Vec<Vec<String>>, OCPTOperatorType)>)
    requires
        local_data.wf(),
        global_data.wf(),
    ensures
        exists|groups: Seq<Vec<usize>>, p: Seq<Vec<String>>|
            #[trigger] is_component_grouping(groups, excl_edges(*local_data, *global_data), local_data.alphabet@.len() as int)
            && #[trigger] parts_listing(p, groups, local_data.alphabet@)
            && exclusive_outcome(*local_data, *global_data, p, r),
{
    let l = local_data;
    let g = global_data;
    let ghost e = excl_edges(*l, *g);
    let lookups = build_lookups(l);
    let n = l.alphabet.len();
    // first round
    let mut adj: Vec<Vec<bool>> = Vec::new();
    let mut i: usize = 0;
    while i < n
        invariant
            0 <= i <= n,
            n == l.alphabet@.len(),
            l.wf(),
            g.wf(),
            lookups_ok(*l, lookups@),
            e == excl_edges(*l, *g),
            adj@.len() == i,
            forall|a: int| 0 <= a < i ==> (#[trigger] adj@[a])@.len() == n,
            forall|a: int, b: int| 0 <= a < i && 0 <= b < n ==> (adj@[a]@[b] <==> e(a, b)),
        decreases n - i,
    {
        let mut row: Vec<bool> = Vec::new();
        let mut j: usize = 0;
        while j < n
            invariant
                0 <= i < n,
                0 <= j <= n,
                n == l.alphabet@.len(),
                l.wf(),
                g.wf(),
                lookups_ok(*l, lookups@),
                e == excl_edges(*l, *g),
                row@.len() == j,
                forall|b: int| 0 <= b < j ==> (row@[b] <==> e(i as int, b)),
            decreases n - j,
        {
            let linked = j > i && (l.alphabet[i] == l.alphabet[j] || check_exclusive_1(l, g, i, j, &lookups)
                || check_exclusive_1(l, g, j, i, &lookups));
            row.push(linked);
            j += 1;
        }
        adj.push(row);
        i += 1;
    }
    proof {
        assert(square(adj@));
        assert(marked_edges(adj@) =~= e);
    }
    let uf = union_components(&adj);
    let groups = group_indices(&uf, n, Ghost(e));
    let partition = parts_of_groups(&l.alphabet, &groups);
    let ghost p1 = partition@;
    if partition.len() == 1 {
        return None;
    }
    // the first part of each activity
    let mut pos: Vec<usize> = Vec::new();
    let mut i: usize = 0;
    while i < n
        invariant
            0 <= i <= n,
            n == l.alphabet@.len(),
            p1 == partition@,
            is_component_grouping(groups@, e, n as int),
            parts_listing(p1, groups@, l.alphabet@),
            pos@.len() == i,
            forall|a: int| 0 <= a < i ==> first_part(p1, l.alphabet@[a]@, #[trigger] pos@[a] as int),
        decreases n - i,
    {
        proof {
            assert(crate::ocim::components::grouped(groups@, i as int));
            let (gg, kk) = choose|gg: int, kk: int| 0 <= gg < groups@.len() && 0 <= kk < groups@[gg]@.len() && #[trigger] groups@[gg]@[kk] == i;
            assert(p1[gg]@[kk] == l.alphabet@[i as int]);
            assert(seq_has(p1[gg]@, l.alphabet@[i as int]@));
        }
        let k = match find_first_part(&partition, &l.alphabet[i]) {
            Some(k) => k,
            None => 0,
        };
        pos.push(k);
        i += 1;
    }
    // second round
    let ghost e2 = excl_edges2(*l, *g, p1);
    let mut adj2: Vec<Vec<bool>> = Vec::new();
    let mut i: usize = 0;
    while i < n
        invariant
            0 <= i <= n,
            n == l.alphabet@.len(),
            l.wf(),
            g.wf(),
            p1 == partition@,
            e == excl_edges(*l, *g),
            e2 == excl_edges2(*l, *g, p1),
            square(adj@),
            adj@.len() == n,
            forall|a: int, b: int| 0 <= a < n && 0 <= b < n ==> (adj@[a]@[b] <==> e(a, b)),
            pos@.len() == n,
            forall|a: int| 0 <= a < n ==> first_part(p1, l.alphabet@[a]@, #[trigger] pos@[a] as int),
            adj2@.len() == i,
            forall|a: int| 0 <= a < i ==> (#[trigger] adj2@[a])@.len() == n,
            forall|a: int, b: int| 0 <= a < i && 0 <= b < n ==> (adj2@[a]@[b] <==> e2(a, b)),
        decreases n - i,
    {
        let mut row: Vec<bool> = Vec::new();
        let mut j: usize = 0;
        while j < n
            invariant
                0 <= i < n,
                0 <= j <= n,
                n == l.alphabet@.len(),
                l.wf(),
                g.wf(),
                p1 == partition@,
                e == excl_edges(*l, *g),
                e2 == excl_edges2(*l, *g, p1),
                square(adj@),
                adj@.len() == n,
                forall|a: int, b: int| 0 <= a < n && 0 <= b < n ==> (adj@[a]@[b] <==> e(a, b)),
                pos@.len() == n,
                forall|a: int| 0 <= a < n ==> first_part(p1, l.alphabet@[a]@, #[trigger] pos@[a] as int),
                row@.len() == j,
                forall|b: int| 0 <= b < j ==> (row@[b] <==> e2(i as int, b)),
            decreases n - j,
        {
            assert(adj@[i as int]@.len() == n);
            let linked = j > i && (adj[i][j] || check_exclusive_2(l, g, &partition[pos[i]], &partition[pos[j]]));
            proof {
                assert(first_part(p1, l.alphabet@[i as int]@, pos@[i as int] as int));
                assert(first_part(p1, l.alphabet@[j as int]@, pos@[j as int] as int));
                if j > i && !adj@[i as int]@[j as int] {
                    if e2(i as int, j as int) {
                        let (pi, pj) = choose|pi: int, pj: int| #[trigger] first_part(p1, l.alphabet@[i as int]@, pi)
                            && #[trigger] first_part(p1, l.alphabet@[j as int]@, pj) && parts_inseparable(*l, *g, p1[pi]@, p1[pj]@);
                        lemma_first_part_unique(p1, l.alphabet@[i as int]@, pi, pos@[i as int] as int);
                        lemma_first_part_unique(p1, l.alphabet@[j as int]@, pj, pos@[j as int] as int);
                    }
                }
            }
            row.push(linked);
            j += 1;
        }
        adj2.push(row);
        i += 1;
    }
    proof {
        assert(square(adj2@));
        assert(marked_edges(adj2@) =~= e2);
    }
    let uf2 = union_components(&adj2);
    let groups2 = group_indices(&uf2, n, Ghost(e2));
    let partition2 = parts_of_groups(&l.alphabet, &groups2);
    if partition2.len() == 1 {
        return None;
    }
    if is_exclusive_cut_valid(l, g, partition2.as_slice()) {
        Some((partition2, OCPTOperatorType::ExclusiveChoice))
    } else {
        None
    }
}

} // verus!
