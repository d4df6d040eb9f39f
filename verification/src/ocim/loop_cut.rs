//! The loop cut (Eq. 26-32): a body part and a redo part.
use vstd::prelude::*;
use crate::ocim::auxiliary_methods::{
    covers_alphabet, get_divergent_types, get_non_divergent_types, is_divergent_type,
    is_non_divergent_type, partitions_cover_alphabet, push_unique,
};
use crate::ocim::common_data::{GlobalData, LocalData, df_count, end_count, start_count};
use crate::ocim::cut_helpers::{check_shares_non_divergent, concat_strings, shares_non_divergent};
use crate::ocim::model::{
    contains_pair, contains_string, dfg_of, lookup_clos, lookup_dfg, seq_has, strings_unique,
};

verus! {

/// The per-object-type conditions of the loop cut.
#[derive(Clone, Copy, PartialEq, Eq, Structural)]
pub enum LoopCondition {
    /// Eq. 27: a divergent type connects `a` and `b` both ways.
    DivergentBidirectional,
    /// Eq. 28: a non-divergent type reaches `b` from `a` and `a` from `b`.
    ClosureSymmetric,
    /// Eq. 31: an edge `a -> b` of a non-divergent type leaves an end activity `a`.
    ExitFromEnd,
    /// Eq. 32: an edge `a -> b` of a non-divergent type enters a start activity `b`.
    EntryToStart,
}

/// The object types that a condition ranges over: divergent or non-divergent shared types.
pub open spec fn condition_type(g: GlobalData, a: Seq<char>, b: Seq<char>, ctx: Seq<String>, t: Seq<char>, c: LoopCondition) -> bool {
    if c == LoopCondition::DivergentBidirectional {
        is_divergent_type(g, a, b, ctx, t)
    } else {
        is_non_divergent_type(g, a, b, ctx, t)
    }
}

/// The condition for one object type.
pub open spec fn condition_holds(l: LocalData, t: Seq<char>, a: Seq<char>, b: Seq<char>, c: LoopCondition) -> bool {
    match c {
        LoopCondition::DivergentBidirectional => l.has_dfg(t) && l.df(t, a, b) != 0 && l.df(t, b, a) != 0,
        LoopCondition::ClosureSymmetric => l.has_clos(t) && l.reaches(t, a, b) && l.reaches(t, b, a),
        LoopCondition::ExitFromEnd => !(l.df(t, a, b) != 0 && l.end_count(t, a) == 0),
        LoopCondition::EntryToStart => !(l.df(t, a, b) != 0 && l.start_count(t, b) == 0),
    }
}

/// The condition holds for every `a` of `from`, `b` of `to` and type that it ranges over.
pub open spec fn pairs_satisfy(l: LocalData, g: GlobalData, from: Seq<String>, to: Seq<String>, ctx: Seq<String>, c: LoopCondition) -> bool {
    forall|ka: int, kb: int, t: Seq<char>| 0 <= ka < from.len() && 0 <= kb < to.len()
        && #[trigger] condition_type(g, from[ka]@, to[kb]@, ctx, t, c) ==> condition_holds(l, t, from[ka]@, to[kb]@, c)
}

/// Some `a` of `body`, `b` of `redo` make `t` a non-divergent shared type in `ctx`.
pub open spec fn relevant_type(g: GlobalData, body: Seq<String>, redo: Seq<String>, ctx: Seq<String>, t: Seq<char>) -> bool {
    exists|ka: int, kb: int| 0 <= ka < body.len() && 0 <= kb < redo.len() && #[trigger] is_non_divergent_type(g, body[ka]@, redo[kb]@, ctx, t)
}

/// Every start (`!ends`) or end (`ends`) activity of `t` with a nonzero count
/// that belongs to the loop belongs to the body.
pub open spec fn boundary_in_body(l: LocalData, t: Seq<char>, body: Seq<String>, acts: Seq<String>, ends: bool) -> bool {
    l.has_dfg(t) ==> forall|i: int| 0 <= i < boundary_counts(l, t, ends).len() && (#[trigger] boundary_counts(l, t, ends)[i]).1 > 0
        && seq_has(acts, boundary_counts(l, t, ends)[i].0@) ==> seq_has(body, boundary_counts(l, t, ends)[i].0@)
}

/// The end counts (`ends`) or start counts (`!ends`) of the graph of `t`.
pub open spec fn boundary_counts(l: LocalData, t: Seq<char>, ends: bool) -> Seq<(String, u32)> {
    if ends { dfg_of(l.dfgs@, t).ends@ } else { dfg_of(l.dfgs@, t).starts@ }
}

/// The loop cut definition with body `p[0]` and redo `p[1]`, where `acts` is
/// `body ++ redo`.
pub open spec fn loop_cut_valid(l: LocalData, g: GlobalData, p: Seq<Vec<String>>) -> bool {
    p.len() >= 2 && {
        let body = p[0]@;
        let redo = p[1]@;
        let acts = body + redo;
        &&& covers_alphabet(p, l.alphabet@)
        &&& shares_non_divergent(g, body, redo)
        &&& pairs_satisfy(l, g, body, redo, acts, LoopCondition::DivergentBidirectional)
        &&& pairs_satisfy(l, g, acts, acts, acts, LoopCondition::ClosureSymmetric)
        &&& forall|t: Seq<char>| #[trigger] relevant_type(g, body, redo, acts, t) ==> boundary_in_body(l, t, body, acts, false)
        &&& forall|t: Seq<char>| #[trigger] relevant_type(g, body, redo, acts, t) ==> boundary_in_body(l, t, body, acts, true)
        &&& pairs_satisfy(l, g, body, redo, acts, LoopCondition::ExitFromEnd)
        &&& pairs_satisfy(l, g, redo, body, acts, LoopCondition::EntryToStart)
    }
}

/// Whether the condition holds for object type `t`.
fn check_condition(l: &LocalData, t: &String, a: &String, b: &String, c: LoopCondition) -> (r: bool)
    requires
        l.wf(),
    ensures
        r == condition_holds(*l, t@, a@, b@, c),
{
    match c {
        LoopCondition::DivergentBidirectional => {
            lookup_dfg(&l.dfgs, t).is_some() && df_count(l, t, a, b) != 0 && df_count(l, t, b, a) != 0
        },
        LoopCondition::ClosureSymmetric => match lookup_clos(&l.clos, t) {
            Some(pairs) => contains_pair(pairs, a, b) && contains_pair(pairs, b, a),
            None => false,
        },
        LoopCondition::ExitFromEnd => !(df_count(l, t, a, b) != 0 && end_count(l, t, a) == 0),
        LoopCondition::EntryToStart => !(df_count(l, t, a, b) != 0 && start_count(l, t, b) == 0),
    }
}

/// Whether `pairs_satisfy` holds.
fn check_pairs(l: &LocalData, g: &GlobalData, from: &Vec<String>, to: &Vec<String>, ctx: &Vec<String>, c: LoopCondition) -> (r: bool)
    requires
        l.wf(),
        g.wf(),
    ensures
        r == pairs_satisfy(*l, *g, from@, to@, ctx@, c),
{
    let mut ka: usize = 0;
    while ka < from.len()
        invariant
            0 <= ka <= from.len(),
            forall|m: int, n: int, t: Seq<char>| 0 <= m < ka && 0 <= n < to@.len()
                && #[trigger] condition_type(*g, from@[m]@, to@[n]@, ctx@, t, c) ==> condition_holds(*l, t, from@[m]@, to@[n]@, c),
        decreases from.len() - ka,
    {
        let a = &from[ka];
        let mut kb: usize = 0;
        while kb < to.len()
            invariant
                0 <= kb <= to.len(),
                forall|m: int, n: int, t: Seq<char>| 0 <= m < ka && 0 <= n < to@.len()
                    && #[trigger] condition_type(*g, from@[m]@, to@[n]@, ctx@, t, c) ==> condition_holds(*l, t, from@[m]@, to@[n]@, c),
                forall|n: int, t: Seq<char>| 0 <= n < kb && #[trigger] condition_type(*g, a@, to@[n]@, ctx@, t, c)
                    ==> condition_holds(*l, t, a@, to@[n]@, c),
            decreases to.len() - kb,
        {
            let b = &to[kb];
            let types = if c == LoopCondition::DivergentBidirectional {
                get_divergent_types(a, b, ctx.as_slice(), g)
            } else {
                get_non_divergent_types(a, b, ctx.as_slice(), g)
            };
            assert(forall|t: Seq<char>| #[trigger] seq_has(types@, t) <==> condition_type(*g, a@, b@, ctx@, t, c));
            let mut k: usize = 0;
            while k < types.len()
                invariant
                    0 <= k <= types.len(),
                    forall|m: int| 0 <= m < k ==> condition_holds(*l, (#[trigger] types@[m])@, a@, b@, c),
                decreases types.len() - k,
            {
                if !check_condition(l, &types[k], a, b, c) {
                    proof {
                        assert(seq_has(types@, types@[k as int]@));
                        assert(condition_type(*g, from@[ka as int]@, to@[kb as int]@, ctx@, types@[k as int]@, c));
                    }
                    return false;
                }
                k += 1;
            }
            proof {
                assert forall|t: Seq<char>| #[trigger] condition_type(*g, a@, b@, ctx@, t, c) implies condition_holds(*l, t, a@, b@, c) by {
                    assert(seq_has(types@, t));
                    let m = choose|m: int| 0 <= m < types@.len() && (#[trigger] types@[m])@ == t;
                }
            }
            kb += 1;
        }
        ka += 1;
    }
    true
}

/// The object types that some `a` of `body` and `b` of `redo` share as non-divergent types.
fn relevant_types(g: &GlobalData, body: &Vec<String>, redo: &Vec<String>, ctx: &Vec<String>) -> (r: Vec<String>)
    requires
        g.wf(),
    ensures
        strings_unique(r@),
        forall|t: Seq<char>| #[trigger] seq_has(r@, t) <==> relevant_type(*g, body@, redo@, ctx@, t),
{
    let mut out: Vec<String> = Vec::new();
    let mut ka: usize = 0;
    while ka < body.len()
        invariant
            0 <= ka <= body.len(),
            strings_unique(out@),
            forall|t: Seq<char>| #[trigger] seq_has(out@, t) <==> exists|m: int, n: int| 0 <= m < ka && 0 <= n < redo@.len()
                && #[trigger] is_non_divergent_type(*g, body@[m]@, redo@[n]@, ctx@, t),
        decreases body.len() - ka,
    {
        let a = &body[ka];
        let mut kb: usize = 0;
        let ghost out_before = out@;
        while kb < redo.len()
            invariant
                0 <= kb <= redo.len(),
                strings_unique(out@),
                forall|t: Seq<char>| #[trigger] seq_has(out@, t) <==> (seq_has(out_before, t) || exists|n: int| 0 <= n < kb
                    && #[trigger] is_non_divergent_type(*g, a@, redo@[n]@, ctx@, t)),
            decreases redo.len() - kb,
        {
            let nd = get_non_divergent_types(a, &redo[kb], ctx.as_slice(), g);
            let ghost mid = out@;
            let mut k: usize = 0;
            while k < nd.len()
                invariant
                    0 <= k <= nd.len(),
                    strings_unique(out@),
                    forall|t: Seq<char>| #[trigger] seq_has(out@, t) <==> (seq_has(mid, t) || exists|q: int| 0 <= q < k && (#[trigger] nd@[q])@ == t),
                decreases nd.len() - k,
            {
                let ghost o1 = out@;
                push_unique(&mut out, &nd[k]);
                proof {
                    assert forall|t: Seq<char>| #[trigger] seq_has(out@, t) <==> (seq_has(mid, t) || exists|q: int| 0 <= q < k + 1 && (#[trigger] nd@[q])@ == t) by {
                        if exists|q: int| 0 <= q < k + 1 && (#[trigger] nd@[q])@ == t {
                            let q = choose|q: int| 0 <= q < k + 1 && (#[trigger] nd@[q])@ == t;
                            if q < k {
                                assert(exists|q2: int| 0 <= q2 < k && (#[trigger] nd@[q2])@ == t);
                            }
                        }
                        if exists|q: int| 0 <= q < k && (#[trigger] nd@[q])@ == t {
                            let q = choose|q: int| 0 <= q < k && (#[trigger] nd@[q])@ == t;
                            assert(exists|q2: int| 0 <= q2 < k + 1 && (#[trigger] nd@[q2])@ == t);
                        }
                        if t == nd@[k as int]@ {
                            assert(exists|q2: int| 0 <= q2 < k + 1 && (#[trigger] nd@[q2])@ == t);
                        }
                    }
                }
                k += 1;
            }
            proof {
                assert forall|t: Seq<char>| #[trigger] seq_has(out@, t) <==> (seq_has(out_before, t) || exists|n: int| 0 <= n < kb + 1
                    && #[trigger] is_non_divergent_type(*g, a@, redo@[n]@, ctx@, t)) by {
                    if exists|q: int| 0 <= q < nd@.len() && (#[trigger] nd@[q])@ == t {
                        assert(seq_has(nd@, t));
                        assert(is_non_divergent_type(*g, a@, redo@[kb as int]@, ctx@, t));
                    }
                    if exists|n: int| 0 <= n < kb + 1 && #[trigger] is_non_divergent_type(*g, a@, redo@[n]@, ctx@, t) {
                        let n = choose|n: int| 0 <= n < kb + 1 && #[trigger] is_non_divergent_type(*g, a@, redo@[n]@, ctx@, t);
                        if n < kb {
                            assert(exists|n2: int| 0 <= n2 < kb && #[trigger] is_non_divergent_type(*g, a@, redo@[n2]@, ctx@, t));
                        } else {
                            assert(seq_has(nd@, t));
                            let q = choose|q: int| 0 <= q < nd@.len() && (#[trigger] nd@[q])@ == t;
                            assert(exists|q2: int| 0 <= q2 < nd@.len() && (#[trigger] nd@[q2])@ == t);
                        }
                    }
                    if exists|n: int| 0 <= n < kb && #[trigger] is_non_divergent_type(*g, a@, redo@[n]@, ctx@, t) {
                        let n = choose|n: int| 0 <= n < kb && #[trigger] is_non_divergent_type(*g, a@, redo@[n]@, ctx@, t);
                        assert(exists|n2: int| 0 <= n2 < kb + 1 && #[trigger] is_non_divergent_type(*g, a@, redo@[n2]@, ctx@, t));
                    }
                }
            }
            kb += 1;
        }
        proof {
            assert forall|t: Seq<char>| #[trigger] seq_has(out@, t) <==> exists|m: int, n: int| 0 <= m < ka + 1 && 0 <= n < redo@.len()
                && #[trigger] is_non_divergent_type(*g, body@[m]@, redo@[n]@, ctx@, t) by {
                if exists|m: int, n: int| 0 <= m < ka + 1 && 0 <= n < redo@.len() && #[trigger] is_non_divergent_type(*g, body@[m]@, redo@[n]@, ctx@, t) {
                    let (m, n) = choose|m: int, n: int| 0 <= m < ka + 1 && 0 <= n < redo@.len() && #[trigger] is_non_divergent_type(*g, body@[m]@, redo@[n]@, ctx@, t);
                    if m < ka {
                        assert(exists|m2: int, n2: int| 0 <= m2 < ka && 0 <= n2 < redo@.len() && #[trigger] is_non_divergent_type(*g, body@[m2]@, redo@[n2]@, ctx@, t));
                    } else {
                        assert(exists|n2: int| 0 <= n2 < redo@.len() && #[trigger] is_non_divergent_type(*g, a@, redo@[n2]@, ctx@, t));
                    }
                }
                if seq_has(out@, t) && !seq_has(out_before, t) {
                    let n = choose|n: int| 0 <= n < redo@.len() && #[trigger] is_non_divergent_type(*g, a@, redo@[n]@, ctx@, t);
                    assert(is_non_divergent_type(*g, body@[ka as int]@, redo@[n]@, ctx@, t));
                }
                if seq_has(out_before, t) {
                    let (m, n) = choose|m: int, n: int| 0 <= m < ka && 0 <= n < redo@.len() && #[trigger] is_non_divergent_type(*g, body@[m]@, redo@[n]@, ctx@, t);
                    assert(is_non_divergent_type(*g, body@[m]@, redo@[n]@, ctx@, t));
                }
            }
        }
        ka += 1;
    }
    out
}

/// Whether `boundary_in_body` holds for every type of `types`.
fn check_boundaries_in_body(l: &LocalData, types: &Vec<String>, body: &Vec<String>, acts: &Vec<String>, ends: bool) -> (r: bool)
    requires
        l.wf(),
    ensures
        r == forall|t: Seq<char>| #[trigger] seq_has(types@, t) ==> boundary_in_body(*l, t, body@, acts@, ends),
{
    let mut k: usize = 0;
    while k < types.len()
        invariant
            0 <= k <= types.len(),
            forall|m: int| 0 <= m < k ==> boundary_in_body(*l, (#[trigger] types@[m])@, body@, acts@, ends),
        decreases types.len() - k,
    {
        let ot = &types[k];
        match lookup_dfg(&l.dfgs, ot) {
            None => {},
            Some(dfg) => {
                let counts = if ends { &dfg.ends } else { &dfg.starts };
                assert(counts@ == boundary_counts(*l, ot@, ends));
                let mut i: usize = 0;
                while i < counts.len()
                    invariant
                        0 <= i <= counts.len(),
                        forall|q: int| 0 <= q < i && (#[trigger] counts@[q]).1 > 0 && seq_has(acts@, counts@[q].0@) ==> seq_has(body@, counts@[q].0@),
                    decreases counts.len() - i,
                {
                    if counts[i].1 > 0 && contains_string(acts, &counts[i].0) && !contains_string(body, &counts[i].0) {
                        proof {
                            assert(seq_has(types@, ot@));
                            assert(boundary_counts(*l, ot@, ends)[i as int] == counts@[i as int]);
                            assert(!boundary_in_body(*l, ot@, body@, acts@, ends));
                        }
                        return false;
                    }
                    i += 1;
                }
            },
        }
        k += 1;
    }
    proof {
        assert forall|t: Seq<char>| #[trigger] seq_has(types@, t) implies boundary_in_body(*l, t, body@, acts@, ends) by {
            let m = choose|m: int| 0 <= m < types@.len() && (#[trigger] types@[m])@ == t;
        }
    }
    true
}

/// Validates the loop cut conditions (Eq. 26-32) with body `partition_list[0]`
/// and redo `partition_list[1]`.
pub fn is_loop_cut_valid(local_data: &LocalData, global_data: &GlobalData, partition_list: &[Vec<String>]) -> (r: bool)
    requires
        local_data.wf(),
        global_data.wf(),
    ensures
        r == loop_cut_valid(*local_data, *global_data, partition_list@),
{
    if partition_list.len() < 2 {
        return false;
    }
    let l = local_data;
    let g = global_data;
    let body = &partition_list[0];
    let redo = &partition_list[1];
    let loop_activities = concat_strings(body.as_slice(), redo.as_slice());
    if !partitions_cover_alphabet(partition_list, l.alphabet.as_slice()) {
        return false;
    }
    // Eq. 26
    if !check_shares_non_divergent(g, body, redo) {
        return false;
    }
    // Eq. 27
    if !check_pairs(l, g, body, redo, &loop_activities, LoopCondition::DivergentBidirectional) {
        return false;
    }
    // Eq. 28
    if !check_pairs(l, g, &loop_activities, &loop_activities, &loop_activities, LoopCondition::ClosureSymmetric) {
        return false;
    }
    let relevant = relevant_types(g, body, redo, &loop_activities);
    // Eq. 29 and 30
    let starts_ok = check_boundaries_in_body(l, &relevant, body, &loop_activities, false);
    proof {
        assert(starts_ok == forall|t: Seq<char>| #[trigger] relevant_type(*g, body@, redo@, loop_activities@, t)
            ==> boundary_in_body(*l, t, body@, loop_activities@, false)) by {
            if !starts_ok {
                let t = choose|t: Seq<char>| #[trigger] seq_has(relevant@, t) && !boundary_in_body(*l, t, body@, loop_activities@, false);
                assert(relevant_type(*g, body@, redo@, loop_activities@, t));
            } else {
                assert forall|t: Seq<char>| #[trigger] relevant_type(*g, body@, redo@, loop_activities@, t) implies
                    boundary_in_body(*l, t, body@, loop_activities@, false) by {
                    assert(seq_has(relevant@, t));
                }
            }
        }
    }
    if !starts_ok {
        return false;
    }
    let ends_ok = check_boundaries_in_body(l, &relevant, body, &loop_activities, true);
    proof {
        assert(ends_ok == forall|t: Seq<char>| #[trigger] relevant_type(*g, body@, redo@, loop_activities@, t)
            ==> boundary_in_body(*l, t, body@, loop_activities@, true)) by {
            if !ends_ok {
                let t = choose|t: Seq<char>| #[trigger] seq_has(relevant@, t) && !boundary_in_body(*l, t, body@, loop_activities@, true);
                assert(relevant_type(*g, body@, redo@, loop_activities@, t));
            } else {
                assert forall|t: Seq<char>| #[trigger] relevant_type(*g, body@, redo@, loop_activities@, t) implies
                    boundary_in_body(*l, t, body@, loop_activities@, true) by {
                    assert(seq_has(relevant@, t));
                }
            }
        }
    }
    if !ends_ok {
        return false;
    }
    // Eq. 31
    if !check_pairs(l, g, body, redo, &loop_activities, LoopCondition::ExitFromEnd) {
        return false;
    }
    // Eq. 32
    check_pairs(l, g, redo, body, &loop_activities, LoopCondition::EntryToStart)
}

} // verus!
