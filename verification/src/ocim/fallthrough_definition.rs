//! Validity of the partitions that the fall-through search proposes: weaker
//! forms of the exclusive, sequence and loop cut conditions.
use vstd::prelude::*;
use crate::ocim::auxiliary_methods::{
    covers_alphabet, get_non_divergent_types, is_non_divergent_type, partitions_cover_alphabet,
};
use crate::ocim::common_data::{GlobalData, LocalData, df_count, end_count, start_count};
use crate::ocim::cut_helpers::{check_shares_non_divergent, concat_strings, flatten_range, segment, shares_non_divergent};
use crate::ocim::model::{contains_pair, contains_string, dfg_of, lookup_clos, lookup_dfg, seq_has};

verus! {

/// The concurrent fall-through accepts every partition.
pub fn is_concurrent_fallthrough_valid(_local_data: &LocalData, _global_data: &GlobalData, _partition_list: &[Vec<String>]) -> (r: bool)
    ensures
        r,
{
    true
}

/// No non-divergent type of an activity of `pi` and one of `pj` (in the context
/// of both parts) whose graph exists has an edge between the two, either way.
pub open spec fn no_df_between(l: LocalData, g: GlobalData, pi: Seq<String>, pj: Seq<String>) -> bool {
    forall|ka: int, kb: int, t: Seq<char>| 0 <= ka < pi.len() && 0 <= kb < pj.len()
        && #[trigger] is_non_divergent_type(g, pi[ka]@, pj[kb]@, pi + pj, t) && l.has_dfg(t)
        ==> l.df(t, pi[ka]@, pj[kb]@) == 0 && l.df(t, pj[kb]@, pi[ka]@) == 0
}

/// The exclusive fall-through: the parts cover the alphabet; between two parts no
/// non-divergent type has an edge; any two parts share a non-divergent type.
pub open spec fn exclusive_fallthrough_valid(l: LocalData, g: GlobalData, p: Seq<Vec<String>>) -> bool {
    &&& covers_alphabet(p, l.alphabet@)
    &&& forall|i: int, j: int| 0 <= i < j < p.len() ==> #[trigger] exclusive_pair_ok(l, g, p[i]@, p[j]@)
}

/// No edge between the parts for a non-divergent type, and a shared non-divergent type.
pub open spec fn exclusive_pair_ok(l: LocalData, g: GlobalData, pi: Seq<String>, pj: Seq<String>) -> bool {
    no_df_between(l, g, pi, pj) && shares_non_divergent(g, pi, pj)
}

/// Whether `exclusive_pair_ok` holds for `pi` and `pj`.
fn check_exclusive_pair(l: &LocalData, g: &GlobalData, pi: &Vec<String>, pj: &Vec<String>) -> (r: bool)
    requires
        l.wf(),
        g.wf(),
    ensures
        r == exclusive_pair_ok(*l, *g, pi@, pj@),
{
    check_no_df_between(l, g, pi, pj) && check_shares_non_divergent(g, pi, pj)
}

/// No non-divergent type in `types` has a graph with an edge between `a` and `b`.
fn types_without_edges(l: &LocalData, types: &Vec<String>, a: &String, b: &String) -> (r: bool)
    requires
        l.wf(),
    ensures
        r == forall|t: Seq<char>| #[trigger] seq_has(types@, t) && l.has_dfg(t) ==> l.df(t, a@, b@) == 0 && l.df(t, b@, a@) == 0,
{
    let mut k: usize = 0;
    while k < types.len()
        invariant
            0 <= k <= types@.len(),
            l.wf(),
            forall|m: int| 0 <= m < k && l.has_dfg((#[trigger] types@[m])@) ==> l.df(types@[m]@, a@, b@) == 0 && l.df(types@[m]@, b@, a@) == 0,
        decreases types@.len() - k,
    {
        let ot = &types[k];
        if lookup_dfg(&l.dfgs, ot).is_some() {
            let ab = df_count(l, ot, a, b);
            let ba = df_count(l, ot, b, a);
            if ab > 0 || ba > 0 {
                proof {
                    assert(seq_has(types@, ot@));
                }
                return false;
            }
        }
        k += 1;
    }
    proof {
        assert forall|t: Seq<char>| #[trigger] seq_has(types@, t) && l.has_dfg(t) implies l.df(t, a@, b@) == 0 && l.df(t, b@, a@) == 0 by {
            let m = choose|m: int| 0 <= m < types@.len() && (#[trigger] types@[m])@ == t;
        }
    }
    true
}

/// Whether `no_df_between` holds for `pi` and `pj`.
fn check_no_df_between(l: &LocalData, g: &GlobalData, pi: &Vec<String>, pj: &Vec<String>) -> (r: bool)
    requires
        l.wf(),
        g.wf(),
    ensures
        r == no_df_between(*l, *g, pi@, pj@),
{
    let ctx = concat_strings(pi.as_slice(), pj.as_slice());
    let mut ka: usize = 0;
    while ka < pi.len()
        invariant
            0 <= ka <= pi@.len(),
            l.wf(),
            g.wf(),
            ctx@ == pi@ + pj@,
            forall|m: int, n: int, t: Seq<char>| 0 <= m < ka && 0 <= n < pj@.len()
                && #[trigger] is_non_divergent_type(*g, pi@[m]@, pj@[n]@, pi@ + pj@, t) && l.has_dfg(t)
                ==> l.df(t, pi@[m]@, pj@[n]@) == 0 && l.df(t, pj@[n]@, pi@[m]@) == 0,
        decreases pi@.len() - ka,
    {
        let mut kb: usize = 0;
        while kb < pj.len()
            invariant
                0 <= ka < pi@.len(),
                0 <= kb <= pj@.len(),
                l.wf(),
                g.wf(),
                ctx@ == pi@ + pj@,
                forall|m: int, n: int, t: Seq<char>| 0 <= m < ka && 0 <= n < pj@.len()
                    && #[trigger] is_non_divergent_type(*g, pi@[m]@, pj@[n]@, pi@ + pj@, t) && l.has_dfg(t)
                    ==> l.df(t, pi@[m]@, pj@[n]@) == 0 && l.df(t, pj@[n]@, pi@[m]@) == 0,
                forall|n: int, t: Seq<char>| 0 <= n < kb
                    && #[trigger] is_non_divergent_type(*g, pi@[ka as int]@, pj@[n]@, pi@ + pj@, t) && l.has_dfg(t)
                    ==> l.df(t, pi@[ka as int]@, pj@[n]@) == 0 && l.df(t, pj@[n]@, pi@[ka as int]@) == 0,
            decreases pj@.len() - kb,
        {
            let nd = get_non_divergent_types(&pi[ka], &pj[kb], ctx.as_slice(), g);
            if !types_without_edges(l, &nd, &pi[ka], &pj[kb]) {
                proof {
                    let t = choose|t: Seq<char>| #[trigger] seq_has(nd@, t) && l.has_dfg(t)
                        && !(l.df(t, pi@[ka as int]@, pj@[kb as int]@) == 0 && l.df(t, pj@[kb as int]@, pi@[ka as int]@) == 0);
                    assert(is_non_divergent_type(*g, pi@[ka as int]@, pj@[kb as int]@, pi@ + pj@, t));
                }
                return false;
            }
            proof {
                assert forall|t: Seq<char>| #[trigger] is_non_divergent_type(*g, pi@[ka as int]@, pj@[kb as int]@, pi@ + pj@, t) && l.has_dfg(t)
                    implies l.df(t, pi@[ka as int]@, pj@[kb as int]@) == 0 && l.df(t, pj@[kb as int]@, pi@[ka as int]@) == 0 by {
                    assert(seq_has(nd@, t));
                }
            }
            kb += 1;
        }
        ka += 1;
    }
    true
}

/// Checks the exclusive fall-through conditions.
pub fn is_exclusive_fallthrough_valid(local_data: &LocalData, global_data: &GlobalData, partition_list: &[Vec<String>]) -> (r: bool)
    requires
        local_data.wf(),
        global_data.wf(),
    ensures
        r == exclusive_fallthrough_valid(*local_data, *global_data, partition_list@),
{
    let l = local_data;
    let g = global_data;
    let p = partition_list;
    if !partitions_cover_alphabet(p, l.alphabet.as_slice()) {
        return false;
    }
    let mut i: usize = 0;
    while i < p.len()
        invariant
            0 <= i <= p@.len(),
            l.wf(),
            g.wf(),
            forall|a: int, b: int| 0 <= a < i && a < b < p@.len() ==> #[trigger] exclusive_pair_ok(*l, *g, p@[a]@, p@[b]@),
        decreases p@.len() - i,
    {
        let mut j: usize = i + 1;
        while j < p.len()
            invariant
                0 <= i < p@.len(),
                i + 1 <= j <= p@.len(),
                l.wf(),
                g.wf(),
                forall|a: int, b: int| 0 <= a < i && a < b < p@.len() ==> #[trigger] exclusive_pair_ok(*l, *g, p@[a]@, p@[b]@),
                forall|b: int| i < b < j ==> #[trigger] exclusive_pair_ok(*l, *g, p@[i as int]@, p@[b]@),
            decreases p@.len() - j,
        {
            if !check_exclusive_pair(l, g, &p[i], &p[j]) {
                return false;
            }
            j += 1;
        }
        proof {
            assert forall|a: int, b: int| 0 <= a < i + 1 && a < b < p@.len() implies #[trigger] exclusive_pair_ok(*l, *g, p@[a]@, p@[b]@) by {
                if a == i {
                    assert(i < b < j);
                }
            }
        }
        i += 1;
    }
    true
}

/// For `i < j`, no non-divergent type (in the context of the parts `i..=j`) of an
/// activity `a` of part `i` and `b` of part `j` reaches `a` from `b`.
pub open spec fn never_back(l: LocalData, g: GlobalData, p: Seq<Vec<String>>, i: int, j: int) -> bool {
    forall|ka: int, kb: int, t: Seq<char>| 0 <= ka < p[i]@.len() && 0 <= kb < p[j]@.len()
        && #[trigger] is_non_divergent_type(g, p[i]@[ka]@, p[j]@[kb]@, segment(p, i, j), t)
        ==> !l.reaches(t, p[j]@[kb]@, p[i]@[ka]@)
}

/// The sequence fall-through: the parts cover the alphabet; no non-divergent type
/// leads back from a later part to an earlier one; any two parts share a
/// non-divergent type.
pub open spec fn sequence_fallthrough_valid(l: LocalData, g: GlobalData, p: Seq<Vec<String>>) -> bool {
    &&& covers_alphabet(p, l.alphabet@)
    &&& forall|i: int, j: int| 0 <= i < j < p.len() ==> #[trigger] sequence_pair_ok(l, g, p, i, j)
}

/// Nothing leads back from part `j` to part `i`, and the two share a non-divergent type.
pub open spec fn sequence_pair_ok(l: LocalData, g: GlobalData, p: Seq<Vec<String>>, i: int, j: int) -> bool {
    never_back(l, g, p, i, j) && shares_non_divergent(g, p[i]@, p[j]@)
}

/// No type of `types` reaches `a` from `b`.
fn types_never_back(l: &LocalData, types: &Vec<String>, a: &String, b: &String) -> (r: bool)
    requires
        l.wf(),
    ensures
        r == forall|t: Seq<char>| #[trigger] seq_has(types@, t) ==> !l.reaches(t, b@, a@),
{
    let mut k: usize = 0;
    while k < types.len()
        invariant
            0 <= k <= types@.len(),
            l.wf(),
            forall|m: int| 0 <= m < k ==> !l.reaches((#[trigger] types@[m])@, b@, a@),
        decreases types@.len() - k,
    {
        match lookup_clos(&l.clos, &types[k]) {
            Some(c) => {
                if contains_pair(c, b, a) {
                    proof {
                        assert(seq_has(types@, types@[k as int]@));
                    }
                    return false;
                }
            },
            None => {},
        }
        k += 1;
    }
    proof {
        assert forall|t: Seq<char>| #[trigger] seq_has(types@, t) implies !l.reaches(t, b@, a@) by {
            let m = choose|m: int| 0 <= m < types@.len() && (#[trigger] types@[m])@ == t;
        }
    }
    true
}

/// Whether `never_back` holds for the parts `i < j`.
fn check_never_back(l: &LocalData, g: &GlobalData, p: &[Vec<String>], i: usize, j: usize) -> (r: bool)
    requires
        l.wf(),
        g.wf(),
        i < j < p@.len(),
    ensures
        r == never_back(*l, *g, p@, i as int, j as int),
{
    let seg = flatten_range(p, i, j);
    let pi = &p[i];
    let pj = &p[j];
    let mut ka: usize = 0;
    while ka < pi.len()
        invariant
            0 <= ka <= pi@.len(),
            l.wf(),
            g.wf(),
            i < j < p@.len(),
            pi@ == p@[i as int]@,
            pj@ == p@[j as int]@,
            seg@ == segment(p@, i as int, j as int),
            forall|m: int, n: int, t: Seq<char>| 0 <= m < ka && 0 <= n < pj@.len()
                && #[trigger] is_non_divergent_type(*g, pi@[m]@, pj@[n]@, seg@, t) ==> !l.reaches(t, pj@[n]@, pi@[m]@),
        decreases pi@.len() - ka,
    {
        let mut kb: usize = 0;
        while kb < pj.len()
            invariant
                0 <= ka < pi@.len(),
                0 <= kb <= pj@.len(),
                l.wf(),
                g.wf(),
                seg@ == segment(p@, i as int, j as int),
                forall|m: int, n: int, t: Seq<char>| 0 <= m < ka && 0 <= n < pj@.len()
                    && #[trigger] is_non_divergent_type(*g, pi@[m]@, pj@[n]@, seg@, t) ==> !l.reaches(t, pj@[n]@, pi@[m]@),
                forall|n: int, t: Seq<char>| 0 <= n < kb
                    && #[trigger] is_non_divergent_type(*g, pi@[ka as int]@, pj@[n]@, seg@, t) ==> !l.reaches(t, pj@[n]@, pi@[ka as int]@),
            decreases pj@.len() - kb,
        {
            let nd = get_non_divergent_types(&pi[ka], &pj[kb], seg.as_slice(), g);
            if !types_never_back(l, &nd, &pi[ka], &pj[kb]) {
                proof {
                    let t = choose|t: Seq<char>| #[trigger] seq_has(nd@, t) && l.reaches(t, pj@[kb as int]@, pi@[ka as int]@);
                    assert(is_non_divergent_type(*g, pi@[ka as int]@, pj@[kb as int]@, seg@, t));
                }
                return false;
            }
            proof {
                assert forall|t: Seq<char>| #[trigger] is_non_divergent_type(*g, pi@[ka as int]@, pj@[kb as int]@, seg@, t)
                    implies !l.reaches(t, pj@[kb as int]@, pi@[ka as int]@) by {
                    assert(seq_has(nd@, t));
                }
            }
            kb += 1;
        }
        ka += 1;
    }
    true
}

/// Whether `sequence_pair_ok` holds for the parts `i < j`.
fn check_sequence_pair(l: &LocalData, g: &GlobalData, p: &[Vec<String>], i: usize, j: usize) -> (r: bool)
    requires
        l.wf(),
        g.wf(),
        i < j < p@.len(),
    ensures
        r == sequence_pair_ok(*l, *g, p@, i as int, j as int),
{
    check_never_back(l, g, p, i, j) && check_shares_non_divergent(g, &p[i], &p[j])
}

/// Checks the sequence fall-through conditions.
pub fn is_sequence_fallthrough_valid(local_data: &LocalData, global_data: &GlobalData, partition_list: &[Vec<String>]) -> (r: bool)
    requires
        local_data.wf(),
        global_data.wf(),
    ensures
        r == sequence_fallthrough_valid(*local_data, *global_data, partition_list@),
{
    let l = local_data;
    let g = global_data;
    let p = partition_list;
    if !partitions_cover_alphabet(p, l.alphabet.as_slice()) {
        return false;
    }
    let mut i: usize = 0;
    while i < p.len()
        invariant
            0 <= i <= p@.len(),
            l.wf(),
            g.wf(),
            forall|a: int, b: int| 0 <= a < i && a < b < p@.len() ==> #[trigger] sequence_pair_ok(*l, *g, p@, a, b),
        decreases p@.len() - i,
    {
        let mut j: usize = i + 1;
        while j < p.len()
            invariant
                0 <= i < p@.len(),
                i + 1 <= j <= p@.len(),
                l.wf(),
                g.wf(),
                forall|a: int, b: int| 0 <= a < i && a < b < p@.len() ==> #[trigger] sequence_pair_ok(*l, *g, p@, a, b),
                forall|b: int| i < b < j ==> #[trigger] sequence_pair_ok(*l, *g, p@, i as int, b),
            decreases p@.len() - j,
        {
            if !check_sequence_pair(l, g, p, i, j) {
                return false;
            }
            j += 1;
        }
        proof {
            assert forall|a: int, b: int| 0 <= a < i + 1 && a < b < p@.len() implies #[trigger] sequence_pair_ok(*l, *g, p@, a, b) by {
                if a == i {
                    assert(i < b < j);
                }
            }
        }
        i += 1;
    }
    true
}

/// Every activity of `redo` that `c` lists with a positive count also lies in `body`.
pub open spec fn boundary_in_body(c: Seq<(String, u32)>, body: Seq<String>, redo: Seq<String>) -> bool {
    forall|k: int| 0 <= k < c.len() && (#[trigger] c[k]).1 > 0 && seq_has(redo, c[k].0@) ==> seq_has(body, c[k].0@)
}

/// For each non-divergent type of `a` (in `body`) and `b` (in `redo`) whose graph
/// exists: its start and end activities with a positive count that lie in `redo`
/// also lie in `body`, and an edge `a -> b` leaves from an end activity `a`.
pub open spec fn body_to_redo_ok(l: LocalData, g: GlobalData, body: Seq<String>, redo: Seq<String>, a: Seq<char>, b: Seq<char>) -> bool {
    forall|t: Seq<char>| #[trigger] is_non_divergent_type(g, a, b, body + redo, t) && l.has_dfg(t) ==>
        boundary_in_body(dfg_of(l.dfgs@, t).starts@, body, redo)
        && boundary_in_body(dfg_of(l.dfgs@, t).ends@, body, redo)
        && !(l.df(t, a, b) > 0 && l.end_count(t, a) == 0)
}

/// For each non-divergent type of `a` (in `redo`) and `b` (in `body`) whose graph
/// exists, an edge `a -> b` enters a start activity `b`.
pub open spec fn redo_to_body_ok(l: LocalData, g: GlobalData, body: Seq<String>, redo: Seq<String>, a: Seq<char>, b: Seq<char>) -> bool {
    forall|t: Seq<char>| #[trigger] is_non_divergent_type(g, a, b, body + redo, t) && l.has_dfg(t) ==>
        !(l.df(t, a, b) > 0 && l.start_count(t, b) == 0)
}

/// The loop fall-through with body `p[0]` and redo part `p[1]`: at least two
/// parts that cover the alphabet; some non-divergent type joins the body and the
/// redo part; for those types the redo part holds no start or end activity
/// outside the body; edges from the body to the redo part leave from end
/// activities, edges from the redo part to the body enter start activities.
pub open spec fn loop_fallthrough_valid(l: LocalData, g: GlobalData, p: Seq<Vec<String>>) -> bool {
    &&& p.len() >= 2
    &&& covers_alphabet(p, l.alphabet@)
    &&& exists|ka: int, kb: int, t: Seq<char>| 0 <= ka < p[0]@.len() && 0 <= kb < p[1]@.len()
        && #[trigger] is_non_divergent_type(g, p[0]@[ka]@, p[1]@[kb]@, p[0]@ + p[1]@, t)
    &&& forall|ka: int, kb: int| 0 <= ka < p[0]@.len() && 0 <= kb < p[1]@.len() ==>
        #[trigger] body_to_redo_ok(l, g, p[0]@, p[1]@, p[0]@[ka]@, p[1]@[kb]@)
    &&& forall|ka: int, kb: int| 0 <= ka < p[1]@.len() && 0 <= kb < p[0]@.len() ==>
        #[trigger] redo_to_body_ok(l, g, p[0]@, p[1]@, p[1]@[ka]@, p[0]@[kb]@)
}

/// Whether `boundary_in_body` holds for the counts `c`.
fn check_boundary_in_body(c: &Vec<(String, u32)>, body: &Vec<String>, redo: &Vec<String>) -> (r: bool)
    ensures
        r == boundary_in_body(c@, body@, redo@),
{
    let mut k: usize = 0;
    while k < c.len()
        invariant
            0 <= k <= c@.len(),
            forall|q: int| 0 <= q < k && (#[trigger] c@[q]).1 > 0 && seq_has(redo@, c@[q].0@) ==> seq_has(body@, c@[q].0@),
        decreases c@.len() - k,
    {
        if c[k].1 > 0 && contains_string(redo, &c[k].0) && !contains_string(body, &c[k].0) {
            return false;
        }
        k += 1;
    }
    true
}

/// Whether `body_to_redo_ok` holds for `a` and `b`, given the types of the pair.
fn check_body_to_redo(l: &LocalData, g: &GlobalData, body: &Vec<String>, redo: &Vec<String>, nd: &Vec<String>, a: &String, b: &String) -> (r: bool)
    requires
        l.wf(),
        forall|t: Seq<char>| #[trigger] seq_has(nd@, t) <==> is_non_divergent_type(*g, a@, b@, body@ + redo@, t),
    ensures
        r == body_to_redo_ok(*l, *g, body@, redo@, a@, b@),
{
    let mut k: usize = 0;
    while k < nd.len()
        invariant
            0 <= k <= nd@.len(),
            l.wf(),
            forall|t: Seq<char>| #[trigger] seq_has(nd@, t) <==> is_non_divergent_type(*g, a@, b@, body@ + redo@, t),
            forall|m: int| 0 <= m < k && l.has_dfg((#[trigger] nd@[m])@) ==>
                boundary_in_body(dfg_of(l.dfgs@, nd@[m]@).starts@, body@, redo@)
                && boundary_in_body(dfg_of(l.dfgs@, nd@[m]@).ends@, body@, redo@)
                && !(l.df(nd@[m]@, a@, b@) > 0 && l.end_count(nd@[m]@, a@) == 0),
        decreases nd@.len() - k,
    {
        let ot = &nd[k];
        match lookup_dfg(&l.dfgs, ot) {
            Some(dfg) => {
                let ok_starts = check_boundary_in_body(&dfg.starts, body, redo);
                let ok_ends = check_boundary_in_body(&dfg.ends, body, redo);
                let ab = df_count(l, ot, a, b);
                let end_a = end_count(l, ot, a);
                if !ok_starts || !ok_ends || (ab > 0 && end_a == 0) {
                    proof {
                        assert(seq_has(nd@, ot@));
                    }
                    return false;
                }
            },
            None => {},
        }
        k += 1;
    }
    proof {
        assert forall|t: Seq<char>| #[trigger] is_non_divergent_type(*g, a@, b@, body@ + redo@, t) && l.has_dfg(t) implies
            boundary_in_body(dfg_of(l.dfgs@, t).starts@, body@, redo@)
            && boundary_in_body(dfg_of(l.dfgs@, t).ends@, body@, redo@)
            && !(l.df(t, a@, b@) > 0 && l.end_count(t, a@) == 0) by {
            assert(seq_has(nd@, t));
            let m = choose|m: int| 0 <= m < nd@.len() && (#[trigger] nd@[m])@ == t;
        }
    }
    true
}

/// Whether `redo_to_body_ok` holds for `a` and `b`.
fn check_redo_to_body(l: &LocalData, g: &GlobalData, body: &Vec<String>, redo: &Vec<String>, ctx: &Vec<String>, a: &String, b: &String) -> (r: bool)
    requires
        l.wf(),
        g.wf(),
        ctx@ == body@ + redo@,
    ensures
        r == redo_to_body_ok(*l, *g, body@, redo@, a@, b@),
{
    let nd = get_non_divergent_types(a, b, ctx.as_slice(), g);
    let mut k: usize = 0;
    while k < nd.len()
        invariant
            0 <= k <= nd@.len(),
            l.wf(),
            forall|m: int| 0 <= m < k && l.has_dfg((#[trigger] nd@[m])@) ==>
                !(l.df(nd@[m]@, a@, b@) > 0 && l.start_count(nd@[m]@, b@) == 0),
        decreases nd@.len() - k,
    {
        let ot = &nd[k];
        if lookup_dfg(&l.dfgs, ot).is_some() {
            let ab = df_count(l, ot, a, b);
            let start_b = start_count(l, ot, b);
            if ab > 0 && start_b == 0 {
                proof {
                    assert(seq_has(nd@, ot@));
                }
                return false;
            }
        }
        k += 1;
    }
    proof {
        assert forall|t: Seq<char>| #[trigger] is_non_divergent_type(*g, a@, b@, body@ + redo@, t) && l.has_dfg(t) implies
            !(l.df(t, a@, b@) > 0 && l.start_count(t, b@) == 0) by {
            assert(seq_has(nd@, t));
            let m = choose|m: int| 0 <= m < nd@.len() && (#[trigger] nd@[m])@ == t;
        }
    }
    true
}

/// Checks the loop fall-through conditions.
pub fn is_loop_fallthrough_valid(local_data: &LocalData, global_data: &GlobalData, partition_list: &[Vec<String>]) -> (r: bool)
    requires
        local_data.wf(),
        global_data.wf(),
    ensures
        r == loop_fallthrough_valid(*local_data, *global_data, partition_list@),
{
    let l = local_data;
    let g = global_data;
    let p = partition_list;
    if p.len() < 2 {
        return false;
    }
    if !partitions_cover_alphabet(p, l.alphabet.as_slice()) {
        return false;
    }
    let body = &p[0];
    let redo = &p[1];
    let ctx = concat_strings(body.as_slice(), redo.as_slice());
    let mut any = false;
    let mut ka: usize = 0;
    while ka < body.len()
        invariant
            0 <= ka <= body@.len(),
            l.wf(),
            g.wf(),
            body@ == p@[0]@,
            redo@ == p@[1]@,
            ctx@ == body@ + redo@,
            any == exists|m: int, n: int, t: Seq<char>| 0 <= m < ka && 0 <= n < redo@.len()
                && #[trigger] is_non_divergent_type(*g, body@[m]@, redo@[n]@, body@ + redo@, t),
            forall|m: int, n: int| 0 <= m < ka && 0 <= n < redo@.len() ==>
                #[trigger] body_to_redo_ok(*l, *g, body@, redo@, body@[m]@, redo@[n]@),
        decreases body@.len() - ka,
    {
        let mut kb: usize = 0;
        let ghost any_before = any;
        while kb < redo.len()
            invariant
                0 <= ka < body@.len(),
                0 <= kb <= redo@.len(),
                l.wf(),
                g.wf(),
                ctx@ == body@ + redo@,
                any == (any_before || exists|n: int, t: Seq<char>| 0 <= n < kb
                    && #[trigger] is_non_divergent_type(*g, body@[ka as int]@, redo@[n]@, body@ + redo@, t)),
                forall|m: int, n: int| 0 <= m < ka && 0 <= n < redo@.len() ==>
                    #[trigger] body_to_redo_ok(*l, *g, body@, redo@, body@[m]@, redo@[n]@),
                forall|n: int| 0 <= n < kb ==> #[trigger] body_to_redo_ok(*l, *g, body@, redo@, body@[ka as int]@, redo@[n]@),
            decreases redo@.len() - kb,
        {
            let a = &body[ka];
            let b = &redo[kb];
            let nd = get_non_divergent_types(a, b, ctx.as_slice(), g);
            if nd.len() > 0 {
                any = true;
                proof {
                    assert(seq_has(nd@, nd@[0]@));
                    assert(is_non_divergent_type(*g, a@, b@, body@ + redo@, nd@[0]@));
                }
            } else {
                proof {
                    assert forall|t: Seq<char>| !#[trigger] is_non_divergent_type(*g, a@, b@, body@ + redo@, t) by {
                        if is_non_divergent_type(*g, a@, b@, body@ + redo@, t) {
                            assert(seq_has(nd@, t));
                        }
                    }
                }
            }
            if !check_body_to_redo(l, g, body, redo, &nd, a, b) {
                return false;
            }
            kb += 1;
        }
        proof {
            assert forall|m: int, n: int| 0 <= m < ka + 1 && 0 <= n < redo@.len() implies
                #[trigger] body_to_redo_ok(*l, *g, body@, redo@, body@[m]@, redo@[n]@) by {
                if m == ka {
                    assert(0 <= n < kb);
                }
            }
        }
        ka += 1;
    }
    if !any {
        return false;
    }
    let mut ka: usize = 0;
    while ka < redo.len()
        invariant
            0 <= ka <= redo@.len(),
            l.wf(),
            g.wf(),
            ctx@ == body@ + redo@,
            forall|m: int, n: int| 0 <= m < ka && 0 <= n < body@.len() ==>
                #[trigger] redo_to_body_ok(*l, *g, body@, redo@, redo@[m]@, body@[n]@),
        decreases redo@.len() - ka,
    {
        let mut kb: usize = 0;
        while kb < body.len()
            invariant
                0 <= ka < redo@.len(),
                0 <= kb <= body@.len(),
                l.wf(),
                g.wf(),
                ctx@ == body@ + redo@,
                forall|m: int, n: int| 0 <= m < ka && 0 <= n < body@.len() ==>
                    #[trigger] redo_to_body_ok(*l, *g, body@, redo@, redo@[m]@, body@[n]@),
                forall|n: int| 0 <= n < kb ==> #[trigger] redo_to_body_ok(*l, *g, body@, redo@, redo@[ka as int]@, body@[n]@),
            decreases body@.len() - kb,
        {
            if !check_redo_to_body(l, g, body, redo, &ctx, &redo[ka], &body[kb]) {
                return false;
            }
            kb += 1;
        }
        proof {
            assert forall|m: int, n: int| 0 <= m < ka + 1 && 0 <= n < body@.len() implies
                #[trigger] redo_to_body_ok(*l, *g, body@, redo@, redo@[m]@, body@[n]@) by {
                if m == ka {
                    assert(0 <= n < kb);
                }
            }
        }
        ka += 1;
    }
    true
}

} // verus!
