//! Detection of a concurrent cut: activities that must stay together are joined,
//! the resulting parts are checked for start and end activities that only appear
//! under the projection, and such parts are merged along their dependencies.
use vstd::prelude::*;
use crate::ocim::auxiliary_methods::{get_projected_end, get_projected_start, is_proj_end, is_proj_start};
use crate::ocim::common_data::{GlobalData, LocalData, df_count, end_count, set_contains, start_count};
use crate::ocim::components::{
    arcs, group_indices, grouped, is_component_grouping, lemma_grouping_partitions, marked_edges, reach_from, reaches,
    square, union_components,
};
use crate::ocim::concurrent_cut::{concurrent_cut_valid, is_concurrent_cut_valid};
use crate::ocim::cut_helpers::concat_strings;
use crate::ocim::model::{contains_string, in_set_of, lookup_dfg, lookup_set, seq_has, set_keys_unique, strings_unique};
use crate::ocim::auxiliary_methods::{covers_alphabet, in_partition};
use crate::ocpt::OCPTOperatorType;
use crate::text::{insert_sorted, sorted_strict};

verus! {

/// Keeps the activities other than `a`.
pub open spec fn differs_from(a: Seq<char>) -> spec_fn(String) -> bool {
    |s: String| s@ != a
}

/// The alphabet without `a`.
pub open spec fn without(alphabet: Seq<String>, a: Seq<char>) -> Seq<String> {
    alphabet.filter(differs_from(a))
}

/// Object type `t` keeps `a` and `b` in one part of a concurrent cut: it has no
/// graph, or the two do not follow each other both ways, or `b` becomes a start
/// (end) activity once `a` is removed while `a` is a start (end) and `b` is not.
pub open spec fn conc_conflict(l: LocalData, a: Seq<char>, b: Seq<char>, t: Seq<char>) -> bool {
    ||| !l.has_dfg(t)
    ||| l.df(t, a, b) == 0
    ||| l.df(t, b, a) == 0
    ||| (l.start_count(t, a) > 0 && l.start_count(t, b) == 0 && is_proj_start(l, without(l.alphabet@, a), t, b))
    ||| (l.end_count(t, a) > 0 && l.end_count(t, b) == 0 && is_proj_end(l, without(l.alphabet@, a), t, b))
}

/// Some object type shared by `a` and `b` keeps them in one part.
pub open spec fn conc_check(l: LocalData, g: GlobalData, a: Seq<char>, b: Seq<char>) -> bool {
    &&& g.has_rel(a)
    &&& g.has_rel(b)
    &&& exists|t: Seq<char>| #![trigger g.rel(a, t), g.rel(b, t)] g.rel(a, t) && g.rel(b, t) && conc_conflict(l, a, b, t)
}

/// Pairs `i < j` of alphabet positions whose activities must stay together.
pub open spec fn conc_edges(l: LocalData, g: GlobalData) -> spec_fn(int, int) -> bool {
    |i: int, j: int| 0 <= i < j < l.alphabet@.len()
        && (conc_check(l, g, l.alphabet@[i]@, l.alphabet@[j]@) || conc_check(l, g, l.alphabet@[j]@, l.alphabet@[i]@))
}

/// The parts list the activities at the positions of the groups.
pub open spec fn parts_listing(p: Seq<Vec<String>>, groups: Seq<Vec<usize>>, alphabet: Seq<String>) -> bool {
    &&& p.len() == groups.len()
    &&& forall|i: int| 0 <= i < p.len() ==> (#[trigger] p[i])@.len() == groups[i]@.len()
    &&& forall|i: int, k: int| 0 <= i < p.len() && 0 <= k < p[i]@.len() ==> #[trigger] p[i]@[k] == alphabet[groups[i]@[k] as int]
}

/// Some activity of `part` becomes a start (`!ends`) or end (`ends`) activity of
/// one of its related object types under the projection onto `part` without
/// being one in the sublog.
pub open spec fn boundary_problem(l: LocalData, g: GlobalData, part: Seq<String>, ends: bool) -> bool {
    exists|k: int, t: Seq<char>| 0 <= k < part.len() && #[trigger] g.rel(part[k]@, t) && if ends {
        is_proj_end(l, part, t, part[k]@) && l.end_count(t, part[k]@) == 0
    } else {
        is_proj_start(l, part, t, part[k]@) && l.start_count(t, part[k]@) == 0
    }
}

/// Joining part `j` to part `i` removes the problem of part `i`.
pub open spec fn resolves(l: LocalData, g: GlobalData, p: Seq<Vec<String>>, i: int, j: int, ends: bool) -> bool {
    j != i && !boundary_problem(l, g, p[i]@ + p[j]@, ends)
}

/// Part `i` depends on part `j`: the same part, or joining `j` removes a start or end problem of `i`.
pub open spec fn dep_edge(l: LocalData, g: GlobalData, p: Seq<Vec<String>>, i: int, j: int) -> bool {
    ||| i == j
    ||| (boundary_problem(l, g, p[i]@, false) && resolves(l, g, p, i, j, false))
    ||| (boundary_problem(l, g, p[i]@, true) && resolves(l, g, p, i, j, true))
}

/// The dependencies between the parts as arcs.
pub open spec fn dep_arcs(l: LocalData, g: GlobalData, p: Seq<Vec<String>>) -> spec_fn(int, int) -> bool {
    |i: int, j: int| 0 <= i < p.len() && 0 <= j < p.len() && dep_edge(l, g, p, i, j)
}

/// Part `i` depends on no other part.
pub open spec fn is_sink(l: LocalData, g: GlobalData, p: Seq<Vec<String>>, i: int) -> bool {
    forall|j: int| 0 <= j < p.len() && j != i ==> !#[trigger] dep_edge(l, g, p, i, j)
}

/// The sinks in increasing order.
pub open spec fn is_sink_listing(l: LocalData, g: GlobalData, p: Seq<Vec<String>>, sl: Seq<usize>) -> bool {
    &&& forall|m: int| 0 <= m < sl.len() ==> (#[trigger] sl[m]) < p.len() && is_sink(l, g, p, sl[m] as int)
    &&& forall|m1: int, m2: int| 0 <= m1 < m2 < sl.len() ==> #[trigger] sl[m1] < #[trigger] sl[m2]
    &&& forall|i: int| 0 <= i < p.len() && is_sink(l, g, p, i) ==> exists|m: int| 0 <= m < sl.len() && #[trigger] sl[m] == i
}

/// Sink `s` is the first sink that part `i` reaches.
pub open spec fn first_sink(l: LocalData, g: GlobalData, p: Seq<Vec<String>>, i: int, s: int) -> bool {
    &&& is_sink(l, g, p, s)
    &&& reaches(dep_arcs(l, g, p), i, s)
    &&& forall|s2: int| 0 <= s2 < s && is_sink(l, g, p, s2) ==> !reaches(dep_arcs(l, g, p), i, s2)
}

/// Part `i` joins the merged part of sink `s`.
pub open spec fn joins(l: LocalData, g: GlobalData, p: Seq<Vec<String>>, s: int, i: int) -> bool {
    0 <= i < p.len() && (i == s || (!is_sink(l, g, p, i) && first_sink(l, g, p, i, s)))
}

/// `x` lies in the merged part of sink `s`.
pub open spec fn in_merged(l: LocalData, g: GlobalData, p: Seq<Vec<String>>, s: int, x: Seq<char>) -> bool {
    exists|i: int| #[trigger] joins(l, g, p, s, i) && seq_has(p[i]@, x)
}

/// `q` lists, for each sink in order, its merged part in increasing order.
pub open spec fn merged_listing(l: LocalData, g: GlobalData, p: Seq<Vec<String>>, sl: Seq<usize>, q: Seq<Vec<String>>) -> bool {
    &&& q.len() == sl.len()
    &&& forall|m: int| 0 <= m < q.len() ==> sorted_strict(#[trigger] q[m]@)
    &&& forall|m: int, x: Seq<char>| 0 <= m < q.len() ==> (#[trigger] seq_has(q[m]@, x) <==> in_merged(l, g, p, sl[m] as int, x))
}

/// No part has a start or end problem.
pub open spec fn no_problems(l: LocalData, g: GlobalData, p: Seq<Vec<String>>) -> bool {
    forall|i: int| 0 <= i < p.len() ==> !boundary_problem(l, g, (#[trigger] p[i])@, false) && !boundary_problem(l, g, p[i]@, true)
}

/// What the detection answers for the parts `p` of the components.
pub open spec fn concurrent_outcome(l: LocalData, g: GlobalData, p: Seq<Vec<String>>, r: Option<(Vec<Vec<String>>, OCPTOperatorType)>) -> bool {
    if p.len() == 1 {
        r is None
    } else if no_problems(l, g, p) {
        r matches Some((parts, op)) && parts@ == p && op is Concurrency
    } else {
        exists|sl: Seq<usize>| #[trigger] is_sink_listing(l, g, p, sl) && if sl.len() <= 1 {
            r is None
        } else {
            match r {
                Some((parts, op)) => op is Concurrency && merged_listing(l, g, p, sl, parts@) && concurrent_cut_valid(l, g, parts@),
                None => exists|q: Seq<Vec<String>>| #[trigger] merged_listing(l, g, p, sl, q) && !concurrent_cut_valid(l, g, q),
            }
        }
    }
}

/// The alphabet without the activity at position `i`.
fn without_activity(alphabet: &Vec<String>, i: usize) -> (r: Vec<String>)
    requires
        i < alphabet@.len(),
    ensures
        r@ == without(alphabet@, alphabet@[i as int]@),
{
    let ghost a = alphabet@[i as int]@;
    let mut out: Vec<String> = Vec::new();
    let mut k: usize = 0;
    while k < alphabet.len()
        invariant
            0 <= k <= alphabet@.len(),
            i < alphabet@.len(),
            a == alphabet@[i as int]@,
            out@ == alphabet@.take(k as int).filter(differs_from(a)),
        decreases alphabet@.len() - k,
    {
        proof {
            reveal(Seq::filter);
            assert(alphabet@.take(k + 1).drop_last() =~= alphabet@.take(k as int));
            assert(alphabet@.take(k + 1).last() == alphabet@[k as int]);
        }
        if alphabet[k] != alphabet[i] {
            out.push(alphabet[k].clone());
        }
        k += 1;
    }
    assert(alphabet@.take(alphabet@.len() as int) =~= alphabet@);
    out
}

/// For each alphabet position `i`, the projected starts and ends of the alphabet without activity `i`.
pub open spec fn lookups_ok(l: LocalData, lookups: Seq<(Vec<(String, Vec<String>)>, Vec<(String, Vec<String>)>)>) -> bool {
    &&& lookups.len() == l.alphabet@.len()
    &&& forall|i: int| 0 <= i < lookups.len() ==> set_keys_unique((#[trigger] lookups[i]).0@) && set_keys_unique(lookups[i].1@)
    &&& forall|i: int, t: Seq<char>, x: Seq<char>| 0 <= i < lookups.len() ==>
        (#[trigger] in_set_of(lookups[i].0@, t, x) <==> is_proj_start(l, without(l.alphabet@, l.alphabet@[i]@), t, x))
    &&& forall|i: int, t: Seq<char>, x: Seq<char>| 0 <= i < lookups.len() ==>
        (#[trigger] in_set_of(lookups[i].1@, t, x) <==> is_proj_end(l, without(l.alphabet@, l.alphabet@[i]@), t, x))
}

pub fn build_lookups(l: &LocalData) -> (r: Vec<(Vec<(String, Vec<String>)>, Vec<(String, Vec<String>)>)>)
    requires
        l.wf(),
    ensures
        lookups_ok(*l, r@),
{
    let mut out: Vec<(Vec<(String, Vec<String>)>, Vec<(String, Vec<String>)>)> = Vec::new();
    let mut i: usize = 0;
    while i < l.alphabet.len()
        invariant
            0 <= i <= l.alphabet@.len(),
            l.wf(),
            out@.len() == i,
            forall|q: int| 0 <= q < i ==> set_keys_unique((#[trigger] out@[q]).0@) && set_keys_unique(out@[q].1@),
            forall|q: int, t: Seq<char>, x: Seq<char>| 0 <= q < i ==>
                (#[trigger] in_set_of(out@[q].0@, t, x) <==> is_proj_start(*l, without(l.alphabet@, l.alphabet@[q]@), t, x)),
            forall|q: int, t: Seq<char>, x: Seq<char>| 0 <= q < i ==>
                (#[trigger] in_set_of(out@[q].1@, t, x) <==> is_proj_end(*l, without(l.alphabet@, l.alphabet@[q]@), t, x)),
        decreases l.alphabet@.len() - i,
    {
        let rest = without_activity(&l.alphabet, i);
        let starts = get_projected_start(l, rest.as_slice());
        let ends = get_projected_end(l, rest.as_slice());
        out.push((starts, ends));
        i += 1;
    }
    out
}

/// Whether `conc_check` holds for the activities at positions `i` and `j`.
fn check_concurrent(
    l: &LocalData,
    g: &GlobalData,
    i: usize,
    j: usize,
    lookups: &Vec<(Vec<(String, Vec<String>)>, Vec<(String, Vec<String>)>)>,
) -> (r: bool)
    requires
        l.wf(),
        g.wf(),
        lookups_ok(*l, lookups@),
        i < l.alphabet@.len(),
        j < l.alphabet@.len(),
    ensures
        r == conc_check(*l, *g, l.alphabet@[i as int]@, l.alphabet@[j as int]@),
{
    let a = &l.alphabet[i];
    let b = &l.alphabet[j];
    let rel_a = match lookup_set(&g.related, a) {
        None => return false,
        Some(r) => r,
    };
    let rel_b = match lookup_set(&g.related, b) {
        None => return false,
        Some(r) => r,
    };
    let mut k: usize = 0;
    while k < rel_a.len()
        invariant
            0 <= k <= rel_a@.len(),
            l.wf(),
            lookups_ok(*l, lookups@),
            i < l.alphabet@.len(),
            *a == l.alphabet@[i as int],
            *b == l.alphabet@[j as int],
            forall|t: Seq<char>| #![trigger seq_has(rel_a@, t)] seq_has(rel_a@, t) <==> g.rel(a@, t),
            forall|t: Seq<char>| #![trigger seq_has(rel_b@, t)] seq_has(rel_b@, t) <==> g.rel(b@, t),
            forall|q: int| 0 <= q < k ==> !(g.rel(b@, (#[trigger] rel_a@[q])@) && conc_conflict(*l, a@, b@, rel_a@[q]@)),
        decreases rel_a@.len() - k,
    {
        let t = &rel_a[k];
        proof {
            assert(seq_has(rel_a@, t@));
        }
        if contains_string(rel_b, t) {
            if lookup_dfg(&l.dfgs, t).is_none() {
                return true;
            }
            let ab = df_count(l, t, a, b);
            let ba = df_count(l, t, b, a);
            if ab == 0 || ba == 0 {
                return true;
            }
            if start_count(l, t, a) > 0 && start_count(l, t, b) == 0 && set_contains(&lookups[i].0, t, b) {
                return true;
            }
            if end_count(l, t, a) > 0 && end_count(l, t, b) == 0 && set_contains(&lookups[i].1, t, b) {
                return true;
            }
        }
        k += 1;
    }
    proof {
        assert forall|t: Seq<char>| g.rel(a@, t) && g.rel(b@, t) implies !conc_conflict(*l, a@, b@, t) by {
            assert(seq_has(rel_a@, t));
            let q = choose|q: int| 0 <= q < rel_a@.len() && (#[trigger] rel_a@[q])@ == t;
        }
    }
    false
}

/// Whether `boundary_problem` holds for `part`.
fn has_boundary_problem(l: &LocalData, g: &GlobalData, part: &Vec<String>, ends: bool) -> (r: bool)
    requires
        l.wf(),
        g.wf(),
    ensures
        r == boundary_problem(*l, *g, part@, ends),
{
    let proj = if ends {
        get_projected_end(l, part.as_slice())
    } else {
        get_projected_start(l, part.as_slice())
    };
    let mut k: usize = 0;
    while k < part.len()
        invariant
            0 <= k <= part@.len(),
            l.wf(),
            g.wf(),
            set_keys_unique(proj@),
            forall|t: Seq<char>, x: Seq<char>| #[trigger] in_set_of(proj@, t, x) <==>
                if ends { is_proj_end(*l, part@, t, x) } else { is_proj_start(*l, part@, t, x) },
            forall|q: int, t: Seq<char>| 0 <= q < k && #[trigger] g.rel(part@[q]@, t) ==> !(if ends {
                is_proj_end(*l, part@, t, part@[q]@) && l.end_count(t, part@[q]@) == 0
            } else {
                is_proj_start(*l, part@, t, part@[q]@) && l.start_count(t, part@[q]@) == 0
            }),
        decreases part@.len() - k,
    {
        let a = &part[k];
        match lookup_set(&g.related, a) {
            None => {
                proof {
                    assert forall|t: Seq<char>| !g.rel(a@, t) by {}
                }
            },
            Some(rel) => {
                let mut m: usize = 0;
                while m < rel.len()
                    invariant
                        0 <= m <= rel@.len(),
                        l.wf(),
                        set_keys_unique(proj@),
                        forall|t: Seq<char>, x: Seq<char>| #[trigger] in_set_of(proj@, t, x) <==>
                            if ends { is_proj_end(*l, part@, t, x) } else { is_proj_start(*l, part@, t, x) },
                        forall|q: int| 0 <= q < m ==> !(if ends {
                            is_proj_end(*l, part@, (#[trigger] rel@[q])@, a@) && l.end_count(rel@[q]@, a@) == 0
                        } else {
                            is_proj_start(*l, part@, rel@[q]@, a@) && l.start_count(rel@[q]@, a@) == 0
                        }),
                    decreases rel@.len() - m,
                {
                    let t = &rel[m];
                    let count = if ends { end_count(l, t, a) } else { start_count(l, t, a) };
                    if set_contains(&proj, t, a) && count == 0 {
                        proof {
                            assert(seq_has(rel@, t@));
                            assert(g.rel(part@[k as int]@, t@));
                        }
                        return true;
                    }
                    m += 1;
                }
                proof {
                    assert forall|t: Seq<char>| #[trigger] g.rel(a@, t) implies !(if ends {
                        is_proj_end(*l, part@, t, a@) && l.end_count(t, a@) == 0
                    } else {
                        is_proj_start(*l, part@, t, a@) && l.start_count(t, a@) == 0
                    }) by {
                        assert(seq_has(rel@, t));
                        let q = choose|q: int| 0 <= q < rel@.len() && (#[trigger] rel@[q])@ == t;
                    }
                }
            },
        }
        k += 1;
    }
    false
}

/// The activities at the positions of each group.
pub fn parts_of_groups(alphabet: &Vec<String>, groups: &Vec<Vec<usize>>) -> (r: Vec<Vec<String>>)
    requires
        forall|g: int, k: int| 0 <= g < groups@.len() && 0 <= k < groups@[g]@.len() ==> (#[trigger] groups@[g]@[k]) < alphabet@.len(),
    ensures
        parts_listing(r@, groups@, alphabet@),
{
    let mut out: Vec<Vec<String>> = Vec::new();
    let mut gi: usize = 0;
    while gi < groups.len()
        invariant
            0 <= gi <= groups@.len(),
            forall|g: int, k: int| 0 <= g < groups@.len() && 0 <= k < groups@[g]@.len() ==> (#[trigger] groups@[g]@[k]) < alphabet@.len(),
            out@.len() == gi,
            forall|i: int| 0 <= i < gi ==> (#[trigger] out@[i])@.len() == groups@[i]@.len(),
            forall|i: int, k: int| 0 <= i < gi && 0 <= k < out@[i]@.len() ==> #[trigger] out@[i]@[k] == alphabet@[groups@[i]@[k] as int],
        decreases groups@.len() - gi,
    {
        let grp = &groups[gi];
        let mut part: Vec<String> = Vec::new();
        let mut k: usize = 0;
        while k < grp.len()
            invariant
                0 <= k <= grp@.len(),
                grp@ == groups@[gi as int]@,
                forall|kk: int| 0 <= kk < grp@.len() ==> (#[trigger] grp@[kk]) < alphabet@.len(),
                part@.len() == k,
                forall|kk: int| 0 <= kk < k ==> #[trigger] part@[kk] == alphabet@[grp@[kk] as int],
            decreases grp@.len() - k,
        {
            assert(grp@[k as int] < alphabet@.len());
            part.push(alphabet[grp[k]].clone());
            k += 1;
        }
        out.push(part);
        gi += 1;
    }
    out
}

/// Whether part `i` depends on no other part.
fn sink_check(dep: &Vec<Vec<bool>>, i: usize) -> (r: bool)
    requires
        square(dep@),
        i < dep@.len(),
    ensures
        r == forall|j: int| 0 <= j < dep@.len() && j != i ==> !(#[trigger] dep@[i as int]@[j]),
{
    let row = &dep[i];
    let mut j: usize = 0;
    while j < row.len()
        invariant
            0 <= j <= row@.len(),
            row@ == dep@[i as int]@,
            row@.len() == dep@.len(),
            forall|q: int| 0 <= q < j && q != i ==> !(#[trigger] row@[q]),
        decreases row@.len() - j,
    {
        if j != i && row[j] {
            return false;
        }
        j += 1;
    }
    true
}

/// The merged part of a sink: the activities of every part that joins it, in increasing order.
fn merge_joined(parts: &Vec<Vec<String>>, joined: &Vec<bool>) -> (r: Vec<String>)
    requires
        joined@.len() == parts@.len(),
    ensures
        sorted_strict(r@),
        forall|x: Seq<char>| #[trigger] seq_has(r@, x) <==> exists|i: int| 0 <= i < parts@.len() && joined@[i] && seq_has((#[trigger] parts@[i])@, x),
{
    let mut out: Vec<String> = Vec::new();
    let mut i: usize = 0;
    while i < parts.len()
        invariant
            0 <= i <= parts@.len(),
            joined@.len() == parts@.len(),
            sorted_strict(out@),
            forall|x: Seq<char>| #[trigger] seq_has(out@, x) <==> exists|q: int| 0 <= q < i && joined@[q] && seq_has((#[trigger] parts@[q])@, x),
        decreases parts@.len() - i,
    {
        if joined[i] {
            let part = &parts[i];
            let ghost before = out@;
            let mut k: usize = 0;
            while k < part.len()
                invariant
                    0 <= k <= part@.len(),
                    part@ == parts@[i as int]@,
                    sorted_strict(out@),
                    forall|x: Seq<char>| #[trigger] seq_has(out@, x) <==> (seq_has(before, x) || exists|kk: int| 0 <= kk < k && (#[trigger] part@[kk])@ == x),
                decreases part@.len() - k,
            {
                insert_sorted(&mut out, &part[k]);
                proof {
                    assert forall|x: Seq<char>| #[trigger] seq_has(out@, x) <==> (seq_has(before, x) || exists|kk: int| 0 <= kk < k + 1 && (#[trigger] part@[kk])@ == x) by {
                        if exists|kk: int| 0 <= kk < k + 1 && (#[trigger] part@[kk])@ == x {
                            let kk = choose|kk: int| 0 <= kk < k + 1 && (#[trigger] part@[kk])@ == x;
                            if kk < k {
                                assert(exists|k2: int| 0 <= k2 < k && (#[trigger] part@[k2])@ == x);
                            }
                        }
                        if exists|kk: int| 0 <= kk < k && (#[trigger] part@[kk])@ == x {
                            let kk = choose|kk: int| 0 <= kk < k && (#[trigger] part@[kk])@ == x;
                            assert(exists|k2: int| 0 <= k2 < k + 1 && (#[trigger] part@[k2])@ == x);
                        }
                        if x == part@[k as int]@ {
                            assert(exists|k2: int| 0 <= k2 < k + 1 && (#[trigger] part@[k2])@ == x);
                        }
                    }
                }
                k += 1;
            }
            proof {
                assert forall|x: Seq<char>| #[trigger] seq_has(out@, x) <==> exists|q: int| 0 <= q < i + 1 && joined@[q] && seq_has((#[trigger] parts@[q])@, x) by {
                    if exists|kk: int| 0 <= kk < part@.len() && (#[trigger] part@[kk])@ == x {
                        assert(seq_has(parts@[i as int]@, x));
                    }
                    if seq_has(parts@[i as int]@, x) {
                        let kk = choose|kk: int| 0 <= kk < part@.len() && (#[trigger] part@[kk])@ == x;
                    }
                    if exists|q: int| 0 <= q < i + 1 && joined@[q] && seq_has((#[trigger] parts@[q])@, x) {
                        let q = choose|q: int| 0 <= q < i + 1 && joined@[q] && seq_has((#[trigger] parts@[q])@, x);
                        if q < i {
                            assert(exists|q2: int| 0 <= q2 < i && joined@[q2] && seq_has((#[trigger] parts@[q2])@, x));
                        }
                    }
                    if exists|q: int| 0 <= q < i && joined@[q] && seq_has((#[trigger] parts@[q])@, x) {
                        let q = choose|q: int| 0 <= q < i && joined@[q] && seq_has((#[trigger] parts@[q])@, x);
                        assert(exists|q2: int| 0 <= q2 < i + 1 && joined@[q2] && seq_has((#[trigger] parts@[q2])@, x));
                    }
                }
            }
        } else {
            proof {
                assert forall|x: Seq<char>| #[trigger] seq_has(out@, x) <==> exists|q: int| 0 <= q < i + 1 && joined@[q] && seq_has((#[trigger] parts@[q])@, x) by {
                    if exists|q: int| 0 <= q < i + 1 && joined@[q] && seq_has((#[trigger] parts@[q])@, x) {
                        let q = choose|q: int| 0 <= q < i + 1 && joined@[q] && seq_has((#[trigger] parts@[q])@, x);
                        assert(q < i);
                    }
                    if exists|q: int| 0 <= q < i && joined@[q] && seq_has((#[trigger] parts@[q])@, x) {
                        let q = choose|q: int| 0 <= q < i && joined@[q] && seq_has((#[trigger] parts@[q])@, x);
                        assert(exists|q2: int| 0 <= q2 < i + 1 && joined@[q2] && seq_has((#[trigger] parts@[q2])@, x));
                    }
                }
            }
        }
        i += 1;
    }
    out
}

/// The position of the first sink that the row marks as reached, if any.
fn first_reached(row: &Vec<bool>, sinks: &Vec<usize>) -> (r: Option<usize>)
    requires
        forall|q: int| 0 <= q < sinks@.len() ==> (#[trigger] sinks@[q]) < row@.len(),
    ensures
        r matches Some(t) ==> t < sinks@.len() && row@[sinks@[t as int] as int]
            && forall|q: int| 0 <= q < t ==> !row@[#[trigger] sinks@[q] as int],
        r is None ==> forall|q: int| 0 <= q < sinks@.len() ==> !row@[#[trigger] sinks@[q] as int],
{
    let mut t: usize = 0;
    while t < sinks.len()
        invariant
            0 <= t <= sinks@.len(),
            forall|q: int| 0 <= q < sinks@.len() ==> (#[trigger] sinks@[q]) < row@.len(),
            forall|q: int| 0 <= q < t ==> !row@[#[trigger] sinks@[q] as int],
        decreases sinks@.len() - t,
    {
        assert(sinks@[t as int] < row@.len());
        if row[sinks[t]] {
            return Some(t);
        }
        t += 1;
    }
    None
}

/// Detects a concurrent cut: activities that some shared object type keeps
/// together form the parts; parts whose start or end activities would only appear
/// under the projection are merged into the first sink part that they depend on;
/// the result must satisfy the concurrent cut definition.
pub fn find_cut_concurrent(local_data: &LocalData, global_data: &GlobalData) -> (r: Option<(Vec<Vec<String>>, OCPTOperatorType)>)
    requires
        local_data.wf(),
        global_data.wf(),
    ensures
        exists|groups: Seq<Vec<usize>>, p: Seq<Vec<String>>|
            #[trigger] is_component_grouping(groups, conc_edges(*local_data, *global_data), local_data.alphabet@.len() as int)
            && #[trigger] parts_listing(p, groups, local_data.alphabet@)
            && concurrent_outcome(*local_data, *global_data, p, r),
{
    let l = local_data;
    let g = global_data;
    let ghost e = conc_edges(*l, *g);
    let lookups = build_lookups(l);
    let n = l.alphabet.len();
    // pairs of activities that must stay in one part
    let mut adj: Vec<Vec<bool>> = Vec::new();
    let mut i: usize = 0;
    while i < n
        invariant
            0 <= i <= n,
            n == l.alphabet@.len(),
            l.wf(),
            g.wf(),
            lookups_ok(*l, lookups@),
            e == conc_edges(*l, *g),
            adj@.len() == i,
            forall|a: int| 0 <= a < i ==> (#[trigger] adj@[a])@.len() == n,
            forall|a: int, b: int| 0 <= a < i && 0 <= b < n ==> (adj@[a]@[b] <==> e(a, b)),
        decreases n - i,
    {
        let mut row: Vec<bool> = Vec::new();
        let mut j: usize = 0;
        while j < n
            invariant
                0 <= i < n,
                0 <= j <= n,
                n == l.alphabet@.len(),
                l.wf(),
                g.wf(),
                lookups_ok(*l, lookups@),
                e == conc_edges(*l, *g),
                row@.len() == j,
                forall|b: int| 0 <= b < j ==> (row@[b] <==> e(i as int, b)),
            decreases n - j,
        {
            let linked = j > i && (check_concurrent(l, g, i, j, &lookups) || check_concurrent(l, g, j, i, &lookups));
            row.push(linked);
            j += 1;
        }
        adj.push(row);
        i += 1;
    }
    proof {
        assert(square(adj@));
        assert(marked_edges(adj@) =~= e);
    }
    let uf = union_components(&adj);
    let groups = group_indices(&uf, n, Ghost(e));
    let partition = parts_of_groups(&l.alphabet, &groups);
    let ghost p = partition@;
    if partition.len() == 1 {
        return None;
    }
    // start and end problems of each part
    let np = partition.len();
    let mut start_problem: Vec<bool> = Vec::new();
    let mut end_problem: Vec<bool> = Vec::new();
    let mut any_problem = false;
    let mut k: usize = 0;
    while k < np
        invariant
            0 <= k <= np,
            np == p.len(),
            p == partition@,
            l.wf(),
            g.wf(),
            start_problem@.len() == k,
            end_problem@.len() == k,
            forall|q: int| 0 <= q < k ==> (start_problem@[q] == boundary_problem(*l, *g, (#[trigger] p[q])@, false)),
            forall|q: int| 0 <= q < k ==> (end_problem@[q] == boundary_problem(*l, *g, (#[trigger] p[q])@, true)),
            any_problem == exists|q: int| 0 <= q < k && (start_problem@[q] || end_problem@[q]),
        decreases np - k,
    {
        let sp = has_boundary_problem(l, g, &partition[k], false);
        let ep = has_boundary_problem(l, g, &partition[k], true);
        let ghost old_any = any_problem;
        let ghost old_sp = start_problem@;
        let ghost old_ep = end_problem@;
        start_problem.push(sp);
        end_problem.push(ep);
        any_problem = any_problem || sp || ep;
        proof {
            if sp || ep {
                assert(start_problem@[k as int] || end_problem@[k as int]);
            }
            if old_any {
                let q = choose|q: int| 0 <= q < k && (old_sp[q] || old_ep[q]);
                assert(start_problem@[q] == old_sp[q] && end_problem@[q] == old_ep[q]);
                assert(0 <= q < k + 1 && (start_problem@[q] || end_problem@[q]));
            }
            if exists|q: int| 0 <= q < k + 1 && (start_problem@[q] || end_problem@[q]) {
                let q = choose|q: int| 0 <= q < k + 1 && (start_problem@[q] || end_problem@[q]);
                if q < k {
                    assert(start_problem@[q] == old_sp[q] && end_problem@[q] == old_ep[q]);
                    assert(exists|q2: int| 0 <= q2 < k && (old_sp[q2] || old_ep[q2]));
                }
            }
        }
        k += 1;
    }
    if !any_problem {
        proof {
            assert(no_problems(*l, *g, p)) by {
                assert forall|q: int| 0 <= q < p.len() implies !boundary_problem(*l, *g, (#[trigger] p[q])@, false)
                    && !boundary_problem(*l, *g, p[q]@, true) by {
                    if start_problem@[q] || end_problem@[q] {
                        assert(exists|q2: int| 0 <= q2 < np && (start_problem@[q2] || end_problem@[q2]));
                    }
                }
            }
        }
        return Some((partition, OCPTOperatorType::Concurrency));
    }
    proof {
        let q = choose|q: int| 0 <= q < np && (start_problem@[q] || end_problem@[q]);
        assert(!no_problems(*l, *g, p)) by {
            assert(boundary_problem(*l, *g, p[q]@, false) || boundary_problem(*l, *g, p[q]@, true));
        }
    }
    // dependencies between the parts
    let mut dep: Vec<Vec<bool>> = Vec::new();
    let mut a: usize = 0;
    while a < np
        invariant
            0 <= a <= np,
            np == p.len(),
            p == partition@,
            l.wf(),
            g.wf(),
            start_problem@.len() == np,
            end_problem@.len() == np,
            forall|q: int| 0 <= q < np ==> (start_problem@[q] == boundary_problem(*l, *g, (#[trigger] p[q])@, false)),
            forall|q: int| 0 <= q < np ==> (end_problem@[q] == boundary_problem(*l, *g, (#[trigger] p[q])@, true)),
            dep@.len() == a,
            forall|x: int| 0 <= x < a ==> (#[trigger] dep@[x])@.len() == np,
            forall|x: int, y: int| 0 <= x < a && 0 <= y < np ==> (dep@[x]@[y] <==> dep_edge(*l, *g, p, x, y)),
        decreases np - a,
    {
        let mut row: Vec<bool> = Vec::new();
        let mut b: usize = 0;
        while b < np
            invariant
                0 <= a < np,
                0 <= b <= np,
                np == p.len(),
                p == partition@,
                l.wf(),
                g.wf(),
                start_problem@.len() == np,
                end_problem@.len() == np,
                forall|q: int| 0 <= q < np ==> (start_problem@[q] == boundary_problem(*l, *g, (#[trigger] p[q])@, false)),
                forall|q: int| 0 <= q < np ==> (end_problem@[q] == boundary_problem(*l, *g, (#[trigger] p[q])@, true)),
                row@.len() == b,
                forall|y: int| 0 <= y < b ==> (row@[y] <==> dep_edge(*l, *g, p, a as int, y)),
            decreases np - b,
        {
            let mut edge = a == b;
            if !edge && start_problem[a] {
                let combined = concat_strings(partition[a].as_slice(), partition[b].as_slice());
                edge = !has_boundary_problem(l, g, &combined, false);
            }
            if !edge && end_problem[a] {
                let combined = concat_strings(partition[a].as_slice(), partition[b].as_slice());
                edge = !has_boundary_problem(l, g, &combined, true);
            }
            row.push(edge);
            b += 1;
        }
        dep.push(row);
        a += 1;
    }
    proof {
        assert(square(dep@));
        assert(arcs(dep@) =~= dep_arcs(*l, *g, p));
    }
    // the sinks, in increasing order
    let mut sink: Vec<bool> = Vec::new();
    let mut sinks: Vec<usize> = Vec::new();
    let mut x: usize = 0;
    while x < np
        invariant
            0 <= x <= np,
            np == p.len(),
            square(dep@),
            dep@.len() == np,
            forall|u: int, y: int| 0 <= u < np && 0 <= y < np ==> (dep@[u]@[y] <==> dep_edge(*l, *g, p, u, y)),
            sink@.len() == x,
            forall|u: int| 0 <= u < x ==> (sink@[u] == is_sink(*l, *g, p, u)),
            forall|m: int| 0 <= m < sinks@.len() ==> (#[trigger] sinks@[m]) < x && is_sink(*l, *g, p, sinks@[m] as int),
            forall|m1: int, m2: int| 0 <= m1 < m2 < sinks@.len() ==> #[trigger] sinks@[m1] < #[trigger] sinks@[m2],
            forall|u: int| 0 <= u < x && is_sink(*l, *g, p, u) ==> exists|m: int| 0 <= m < sinks@.len() && #[trigger] sinks@[m] == u,
        decreases np - x,
    {
        let is = sink_check(&dep, x);
        proof {
            assert(is == is_sink(*l, *g, p, x as int)) by {
                if is {
                    assert forall|y: int| 0 <= y < p.len() && y != x implies !#[trigger] dep_edge(*l, *g, p, x as int, y) by {
                        assert(!dep@[x as int]@[y]);
                    }
                } else {
                    let y = choose|y: int| 0 <= y < dep@.len() && y != x && (#[trigger] dep@[x as int]@[y]);
                    assert(dep_edge(*l, *g, p, x as int, y));
                }
            }
        }
        sink.push(is);
        if is {
            let ghost before = sinks@;
            sinks.push(x);
            proof {
                assert forall|u: int| 0 <= u < x + 1 && is_sink(*l, *g, p, u) implies exists|m: int| 0 <= m < sinks@.len() && #[trigger] sinks@[m] == u by {
                    if u < x {
                        let m = choose|m: int| 0 <= m < before.len() && #[trigger] before[m] == u;
                        assert(sinks@[m] == u);
                    } else {
                        assert(sinks@[before.len() as int] == u);
                    }
                }
            }
        }
        x += 1;
    }
    let ghost sl = sinks@;
    assert(is_sink_listing(*l, *g, p, sl));
    if sinks.len() <= 1 {
        return None;
    }
    // what each part reaches along its dependencies
    let mut reach: Vec<Vec<bool>> = Vec::new();
    let mut u: usize = 0;
    while u < np
        invariant
            0 <= u <= np,
            np == p.len(),
            square(dep@),
            dep@.len() == np,
            arcs(dep@) == dep_arcs(*l, *g, p),
            reach@.len() == u,
            forall|v: int| 0 <= v < u ==> (#[trigger] reach@[v])@.len() == np,
            forall|v: int, w: int| 0 <= v < u && 0 <= w < np ==> (reach@[v]@[w] <==> reaches(dep_arcs(*l, *g, p), v, w)),
        decreases np - u,
    {
        reach.push(reach_from(&dep, u));
        u += 1;
    }
    // each part joins itself (a sink) or the first sink it reaches
    let mut merged: Vec<Vec<String>> = Vec::new();
    let mut m: usize = 0;
    while m < sinks.len()
        invariant
            0 <= m <= sinks@.len(),
            sl == sinks@,
            np == p.len(),
            p == partition@,
            is_sink_listing(*l, *g, p, sl),
            sink@.len() == np,
            forall|v: int| 0 <= v < np ==> (sink@[v] == is_sink(*l, *g, p, v)),
            reach@.len() == np,
            forall|v: int| 0 <= v < np ==> (#[trigger] reach@[v])@.len() == np,
            forall|v: int, w: int| 0 <= v < np && 0 <= w < np ==> (reach@[v]@[w] <==> reaches(dep_arcs(*l, *g, p), v, w)),
            merged@.len() == m,
            forall|q: int| 0 <= q < m ==> sorted_strict(#[trigger] merged@[q]@),
            forall|q: int, y: Seq<char>| 0 <= q < m ==> (#[trigger] seq_has(merged@[q]@, y) <==> in_merged(*l, *g, p, sl[q] as int, y)),
        decreases sinks@.len() - m,
    {
        let s_node = sinks[m];
        let mut joined: Vec<bool> = Vec::new();
        let mut v: usize = 0;
        while v < np
            invariant
                0 <= v <= np,
                0 <= m < sinks@.len(),
                s_node == sinks@[m as int],
                sl == sinks@,
                np == p.len(),
                is_sink_listing(*l, *g, p, sl),
                sink@.len() == np,
                forall|w: int| 0 <= w < np ==> (sink@[w] == is_sink(*l, *g, p, w)),
                reach@.len() == np,
                forall|w: int| 0 <= w < np ==> (#[trigger] reach@[w])@.len() == np,
                forall|w: int, y: int| 0 <= w < np && 0 <= y < np ==> (reach@[w]@[y] <==> reaches(dep_arcs(*l, *g, p), w, y)),
                joined@.len() == v,
                forall|w: int| 0 <= w < v ==> (joined@[w] == joins(*l, *g, p, s_node as int, w)),
            decreases np - v,
        {
            let mut join = v == s_node;
            if !join && !sink[v] {
                let first = first_reached(&reach[v], &sinks);
                proof {
                    assert forall|q: int| 0 <= q < sl.len() implies (reach@[v as int]@[sl[q] as int] <==> reaches(dep_arcs(*l, *g, p), v as int, #[trigger] sl[q] as int)) by {
                        assert(sl[q] < np);
                    }
                }
                match first {
                    Some(t) => {
                        join = sinks[t] == s_node;
                        proof {
                            let target = sl[t as int];
                            assert(is_sink(*l, *g, p, target as int));
                            assert forall|s2: int| 0 <= s2 < target && is_sink(*l, *g, p, s2) implies !reaches(dep_arcs(*l, *g, p), v as int, s2) by {
                                let q = choose|q: int| 0 <= q < sl.len() && #[trigger] sl[q] == s2;
                                if q >= t {
                                    if q > t {
                                        assert(sl[t as int] < sl[q]);
                                    }
                                }
                                assert(!reach@[v as int]@[sl[q] as int]);
                            }
                            assert(first_sink(*l, *g, p, v as int, target as int));
                            if first_sink(*l, *g, p, v as int, s_node as int) {
                                if s_node < target {
                                    assert(reaches(dep_arcs(*l, *g, p), v as int, s_node as int));
                                } else if s_node > target {
                                    assert(reaches(dep_arcs(*l, *g, p), v as int, target as int));
                                }
                            }
                            assert(join == joins(*l, *g, p, s_node as int, v as int));
                        }
                    },
                    None => {
                        proof {
                            if first_sink(*l, *g, p, v as int, s_node as int) {
                                assert(sl[m as int] == s_node);
                                assert(!reach@[v as int]@[sl[m as int] as int]);
                            }
                            assert(!joins(*l, *g, p, s_node as int, v as int));
                        }
                    },
                }
            }
            proof {
                if v == s_node {
                } else if sink@[v as int] {
                    assert(!joins(*l, *g, p, s_node as int, v as int));
                }
            }
            joined.push(join);
            v += 1;
        }
        let part = merge_joined(&partition, &joined);
        proof {
            assert forall|y: Seq<char>| #[trigger] seq_has(part@, y) <==> in_merged(*l, *g, p, sl[m as int] as int, y) by {
                if seq_has(part@, y) {
                    let w = choose|w: int| 0 <= w < p.len() && joined@[w] && seq_has((#[trigger] p[w])@, y);
                    assert(joins(*l, *g, p, s_node as int, w));
                }
                if in_merged(*l, *g, p, sl[m as int] as int, y) {
                    let w = choose|w: int| #[trigger] joins(*l, *g, p, s_node as int, w) && seq_has(p[w]@, y);
                    assert(joined@[w]);
                }
            }
        }
        merged.push(part);
        m += 1;
    }
    proof {
        assert(merged_listing(*l, *g, p, sl, merged@));
    }
    if is_concurrent_cut_valid(l, g, merged.as_slice()) {
        Some((merged, OCPTOperatorType::Concurrency))
    } else {
        None
    }
}

/// Two parts of a component listing share no activity, where the alphabet has no duplicates.
proof fn lemma_listing_disjoint(groups: Seq<Vec<usize>>, e: spec_fn(int, int) -> bool, p: Seq<Vec<String>>, alphabet: Seq<String>, i: int, j: int, x: Seq<char>)
    requires
        is_component_grouping(groups, e, alphabet.len() as int),
        parts_listing(p, groups, alphabet),
        strings_unique(alphabet),
        0 <= i < p.len(),
        0 <= j < p.len(),
        seq_has(p[i]@, x),
        seq_has(p[j]@, x),
    ensures
        i == j,
{
    let k1 = choose|k: int| 0 <= k < p[i]@.len() && (#[trigger] p[i]@[k])@ == x;
    let k2 = choose|k: int| 0 <= k < p[j]@.len() && (#[trigger] p[j]@[k])@ == x;
    assert(p[i]@[k1] == alphabet[groups[i]@[k1] as int]);
    assert(p[j]@[k2] == alphabet[groups[j]@[k2] as int]);
    assert(groups[i]@[k1] < alphabet.len() && groups[j]@[k2] < alphabet.len());
    assert(groups[i]@[k1] == groups[j]@[k2]);
    lemma_grouping_partitions(groups, e, alphabet.len() as int, i, k1, j, k2);
}

/// A concurrent cut, where the detection finds one for a nonempty alphabet
/// without duplicates, splits the alphabet into at least two nonempty parts
/// that share no activity and together hold the alphabet.
pub proof fn lemma_concurrent_cut_partitions(l: LocalData, g: GlobalData, r: Option<(Vec<Vec<String>>, OCPTOperatorType)>)
    requires
        l.alphabet@.len() > 0,
        strings_unique(l.alphabet@),
        exists|groups: Seq<Vec<usize>>, p: Seq<Vec<String>>|
            #[trigger] is_component_grouping(groups, conc_edges(l, g), l.alphabet@.len() as int)
            && #[trigger] parts_listing(p, groups, l.alphabet@)
            && concurrent_outcome(l, g, p, r),
        r is Some,
    ensures
        r matches Some((parts, op)) && op is Concurrency && parts@.len() >= 2
            && (forall|i: int| 0 <= i < parts@.len() ==> (#[trigger] parts@[i])@.len() > 0)
            && (forall|i: int, j: int, x: Seq<char>| 0 <= i < parts@.len() && 0 <= j < parts@.len()
                && #[trigger] seq_has(parts@[i]@, x) && #[trigger] seq_has(parts@[j]@, x) ==> i == j)
            && covers_alphabet(parts@, l.alphabet@),
{
    let (groups, p) = choose|groups: Seq<Vec<usize>>, p: Seq<Vec<String>>|
        #[trigger] is_component_grouping(groups, conc_edges(l, g), l.alphabet@.len() as int)
        && #[trigger] parts_listing(p, groups, l.alphabet@)
        && concurrent_outcome(l, g, p, r);
    let e = conc_edges(l, g);
    let alpha = l.alphabet@;
    let n = alpha.len() as int;
    assert(grouped(groups, 0));
    assert(groups.len() > 0);
    // the parts of the components are nonempty and disjoint, and hold the alphabet
    assert forall|i: int| 0 <= i < p.len() implies (#[trigger] p[i])@.len() > 0 by {
        assert(groups[i]@.len() > 0);
    }
    let parts = r->Some_0.0;
    if p.len() != 1 && no_problems(l, g, p) {
        assert(parts@ == p);
        assert forall|i: int, j: int, x: Seq<char>| 0 <= i < parts@.len() && 0 <= j < parts@.len()
            && #[trigger] seq_has(parts@[i]@, x) && #[trigger] seq_has(parts@[j]@, x) implies i == j by {
            lemma_listing_disjoint(groups, e, p, alpha, i, j, x);
        }
        assert forall|x: Seq<char>| #[trigger] in_partition(p, x) <==> seq_has(alpha, x) by {
            if in_partition(p, x) {
                let i = choose|i: int| 0 <= i < p.len() && seq_has((#[trigger] p[i])@, x);
                let k = choose|k: int| 0 <= k < p[i]@.len() && (#[trigger] p[i]@[k])@ == x;
                assert(p[i]@[k] == alpha[groups[i]@[k] as int]);
                assert(groups[i]@[k] < n);
            }
            if seq_has(alpha, x) {
                let a = choose|a: int| 0 <= a < alpha.len() && (#[trigger] alpha[a])@ == x;
                assert(grouped(groups, a));
                let (gi, k) = choose|gi: int, k: int| 0 <= gi < groups.len() && 0 <= k < groups[gi]@.len() && #[trigger] groups[gi]@[k] == a;
                assert(p[gi]@[k] == alpha[a]);
                assert(seq_has(p[gi]@, x));
            }
        }
    } else {
        let sl = choose|sl: Seq<usize>| #[trigger] is_sink_listing(l, g, p, sl) && if sl.len() <= 1 {
            r is None
        } else {
            match r {
                Some((parts, op)) => op is Concurrency && merged_listing(l, g, p, sl, parts@) && concurrent_cut_valid(l, g, parts@),
                None => exists|q: Seq<Vec<String>>| #[trigger] merged_listing(l, g, p, sl, q) && !concurrent_cut_valid(l, g, q),
            }
        };
        let q = parts@;
        assert forall|m: int| 0 <= m < q.len() implies (#[trigger] q[m])@.len() > 0 by {
            let s = sl[m] as int;
            assert(joins(l, g, p, s, s));
            let x = p[s]@[0]@;
            assert(seq_has(p[s]@, x));
            assert(in_merged(l, g, p, s, x));
            assert(seq_has(q[m]@, x));
        }
        assert forall|m1: int, m2: int, x: Seq<char>| 0 <= m1 < q.len() && 0 <= m2 < q.len()
            && #[trigger] seq_has(q[m1]@, x) && #[trigger] seq_has(q[m2]@, x) implies m1 == m2 by {
            let s1 = sl[m1] as int;
            let s2 = sl[m2] as int;
            assert(in_merged(l, g, p, s1, x));
            assert(in_merged(l, g, p, s2, x));
            let i1 = choose|i: int| #[trigger] joins(l, g, p, s1, i) && seq_has(p[i]@, x);
            let i2 = choose|i: int| #[trigger] joins(l, g, p, s2, i) && seq_has(p[i]@, x);
            lemma_listing_disjoint(groups, e, p, alpha, i1, i2, x);
            assert(is_sink(l, g, p, s1) && is_sink(l, g, p, s2));
            if s1 != s2 {
                if s1 < s2 {
                    assert(first_sink(l, g, p, i1, s2));
                    assert(first_sink(l, g, p, i1, s1));
                } else {
                    assert(first_sink(l, g, p, i1, s1));
                    assert(first_sink(l, g, p, i1, s2));
                }
            }
            if m1 < m2 {
                assert(sl[m1] < sl[m2]);
            } else if m2 < m1 {
                assert(sl[m2] < sl[m1]);
            }
        }
    }
}

} // verus!
