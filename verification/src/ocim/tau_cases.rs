//! The silent cases of the miner: a sublog that misses expected objects becomes a
//! choice with a silent branch; a sublog whose activities can follow each other
//! freely becomes a loop with a silent redo part.
use vstd::prelude::*;
use crate::ocim::common_data::{GlobalData, LocalData, df_count, end_count, start_count, set_contains};
use crate::ocim::cut_helpers::concat_strings;
use crate::ocim::loop_cut_detection::{check_closures_symmetric, closures_symmetric, participates};
use crate::ocim::model::{contains_string, seq_has, strings_unique};
use crate::ocpt::OCPTOperatorType;

verus! {

/// Some object of the global logs that the sublog was expected to hold but does
/// not has a type (by `object_types_of`, pairs of object and type) among the
/// types of the objects the sublog holds (`present_types`).
pub open spec fn tau_missing(l: LocalData, object_types_of: Seq<(String, String)>, present_types: Seq<String>) -> bool {
    exists|k: int| 0 <= k < object_types_of.len()
        && seq_has(l.expected_objects@, (#[trigger] object_types_of[k]).0@)
        && !seq_has(l.object_set@, object_types_of[k].0@)
        && seq_has(present_types, object_types_of[k].1@)
}

/// For every object type with a graph, an end activity and a start activity are
/// joined by an edge from the one to the other.
pub open spec fn boundaries_linked(l: LocalData) -> bool {
    forall|k: int, ka: int, kb: int| 0 <= k < l.object_types@.len() && 0 <= ka < l.alphabet@.len() && 0 <= kb < l.alphabet@.len()
        && #[trigger] l.end_count(l.object_types@[k]@, l.alphabet@[ka]@) > 0
        && #[trigger] l.start_count(l.object_types@[k]@, l.alphabet@[kb]@) > 0
        ==> l.df(l.object_types@[k]@, l.alphabet@[ka]@, l.alphabet@[kb]@) > 0
}

/// The partition of a silent case: the whole alphabet, and an empty (silent) part.
pub open spec fn silent_split(alphabet: Seq<String>, p: Seq<Vec<String>>) -> bool {
    p.len() == 2 && p[0]@ == alphabet && p[1]@.len() == 0
}

/// Whether `tau_missing` holds.
fn check_tau_missing(l: &LocalData, object_types_of: &Vec<(String, String)>, present_types: &Vec<String>) -> (r: bool)
    ensures
        r == tau_missing(*l, object_types_of@, present_types@),
{
    let mut k: usize = 0;
    while k < object_types_of.len()
        invariant
            0 <= k <= object_types_of@.len(),
            forall|q: int| 0 <= q < k ==> !(seq_has(l.expected_objects@, (#[trigger] object_types_of@[q]).0@)
                && !seq_has(l.object_set@, object_types_of@[q].0@)
                && seq_has(present_types@, object_types_of@[q].1@)),
        decreases object_types_of@.len() - k,
    {
        let (id, ty) = (&object_types_of[k].0, &object_types_of[k].1);
        if contains_string(&l.expected_objects, id) && !contains_string(&l.object_set, id) && contains_string(present_types, ty) {
            return true;
        }
        k += 1;
    }
    false
}

/// Whether `boundaries_linked` holds.
fn check_boundaries_linked(l: &LocalData) -> (r: bool)
    requires
        l.wf(),
    ensures
        r == boundaries_linked(*l),
{
    let n = l.alphabet.len();
    let mut k: usize = 0;
    while k < l.object_types.len()
        invariant
            0 <= k <= l.object_types@.len(),
            n == l.alphabet@.len(),
            l.wf(),
            forall|k2: int, ka: int, kb: int| 0 <= k2 < k && 0 <= ka < n && 0 <= kb < n
                && #[trigger] l.end_count(l.object_types@[k2]@, l.alphabet@[ka]@) > 0
                && #[trigger] l.start_count(l.object_types@[k2]@, l.alphabet@[kb]@) > 0
                ==> l.df(l.object_types@[k2]@, l.alphabet@[ka]@, l.alphabet@[kb]@) > 0,
        decreases l.object_types@.len() - k,
    {
        let ot = &l.object_types[k];
        let mut ia: usize = 0;
        while ia < n
            invariant
                0 <= k < l.object_types@.len(),
                0 <= ia <= n,
                n == l.alphabet@.len(),
                l.wf(),
                *ot == l.object_types@[k as int],
                forall|k2: int, ka: int, kb: int| 0 <= k2 < k && 0 <= ka < n && 0 <= kb < n
                    && #[trigger] l.end_count(l.object_types@[k2]@, l.alphabet@[ka]@) > 0
                    && #[trigger] l.start_count(l.object_types@[k2]@, l.alphabet@[kb]@) > 0
                    ==> l.df(l.object_types@[k2]@, l.alphabet@[ka]@, l.alphabet@[kb]@) > 0,
                forall|ka: int, kb: int| 0 <= ka < ia && 0 <= kb < n
                    && #[trigger] l.end_count(ot@, l.alphabet@[ka]@) > 0
                    && #[trigger] l.start_count(ot@, l.alphabet@[kb]@) > 0
                    ==> l.df(ot@, l.alphabet@[ka]@, l.alphabet@[kb]@) > 0,
            decreases n - ia,
        {
            let a = &l.alphabet[ia];
            let mut ib: usize = 0;
            while ib < n
                invariant
                    0 <= k < l.object_types@.len(),
                    0 <= ia < n,
                    0 <= ib <= n,
                    n == l.alphabet@.len(),
                    l.wf(),
                    *ot == l.object_types@[k as int],
                    *a == l.alphabet@[ia as int],
                    forall|kb: int| 0 <= kb < ib
                        && l.end_count(ot@, a@) > 0
                        && #[trigger] l.start_count(ot@, l.alphabet@[kb]@) > 0
                        ==> l.df(ot@, a@, l.alphabet@[kb]@) > 0,
                decreases n - ib,
            {
                let b = &l.alphabet[ib];
                if end_count(l, ot, a) > 0 && start_count(l, ot, b) > 0 && df_count(l, ot, a, b) == 0 {
                    return false;
                }
                ib += 1;
            }
            ia += 1;
        }
        k += 1;
    }
    true
}

/// What the tau-case detection answers for the data `l`.
pub open spec fn tau_outcome(l: LocalData, g: GlobalData, object_types_of: Seq<(String, String)>, present_types: Seq<String>, r: Option<(Vec<Vec<String>>, OCPTOperatorType)>) -> bool {
    match r {
        Some((p, op)) => silent_split(l.alphabet@, p@) && if l.expected_objects@.len() > l.object_set@.len()
            && tau_missing(l, object_types_of, present_types) {
            op == OCPTOperatorType::ExclusiveChoice
        } else {
            op == OCPTOperatorType::Loop(None) && closures_symmetric(l, g)
                && boundaries_linked(l) && participates_somewhere(l, g)
        },
        None => !(l.expected_objects@.len() > l.object_set@.len()
            && tau_missing(l, object_types_of, present_types))
            && !(closures_symmetric(l, g) && boundaries_linked(l)
                && participates_somewhere(l, g)),
    }
}


/// Detects a silent case. First, where the sublog expects more objects than it
/// holds, the expected objects become the objects it holds; and where some
/// missing object's type is present in the sublog, the answer is a choice
/// between the alphabet and a silent part. Otherwise, where the closures of all
/// non-divergent types relate every two activities both ways, every end activity
/// is followed by every start activity, and some activity has a related type that
/// is not divergent for it, the answer is a loop of the alphabet and a silent
/// part; else none. `object_types_of` pairs each object of the global logs with
/// its type; `present_types` lists the types of the objects of the sublog.
pub fn detect_tau_cases(local_data: &mut LocalData, global_data: &GlobalData, object_types_of: &Vec<(String, String)>, present_types: &Vec<String>) -> (r: Option<(Vec<Vec<String>>, OCPTOperatorType)>)
    requires
        old(local_data).wf(),
        global_data.wf(),
        strings_unique(old(local_data).expected_objects@),
        strings_unique(old(local_data).object_set@),
    ensures
        final(local_data).alphabet == old(local_data).alphabet,
        final(local_data).object_types == old(local_data).object_types,
        final(local_data).object_set == old(local_data).object_set,
        final(local_data).dfgs == old(local_data).dfgs,
        final(local_data).clos == old(local_data).clos,
        final(local_data).expected_objects@ == if old(local_data).expected_objects@.len() > old(local_data).object_set@.len() {
            old(local_data).object_set@
        } else {
            old(local_data).expected_objects@
        },
        tau_outcome(*old(local_data), *global_data, object_types_of@, present_types@, r),
{
    let ghost start = *local_data;
    let empty: Vec<String> = Vec::new();
    let fewer_objects = local_data.expected_objects.len() > local_data.object_set.len();
    let missing = fewer_objects && check_tau_missing(local_data, object_types_of, present_types);
    let loop_case = !missing && check_closures_symmetric(local_data, global_data)
        && check_boundaries_linked(local_data) && check_relevant(local_data, global_data);
    let alphabet = concat_strings(local_data.alphabet.as_slice(), empty.as_slice());
    assert(alphabet@ =~= start.alphabet@);
    if fewer_objects {
        local_data.expected_objects = concat_strings(local_data.object_set.as_slice(), empty.as_slice());
        assert(local_data.expected_objects@ =~= start.object_set@);
    }
    if missing {
        let mut parts: Vec<Vec<String>> = Vec::new();
        parts.push(alphabet);
        parts.push(Vec::new());
        return Some((parts, OCPTOperatorType::ExclusiveChoice));
    }
    if !loop_case {
        return None;
    }
    let mut parts: Vec<Vec<String>> = Vec::new();
    parts.push(alphabet);
    parts.push(Vec::new());
    Some((parts, OCPTOperatorType::Loop(None)))
}

/// Some activity has a related object type that is not divergent for it.
pub open spec fn participates_somewhere(l: LocalData, g: GlobalData) -> bool {
    exists|t: Seq<char>| #[trigger] participates(l, g, t)
}

/// Whether `participates_somewhere` holds.
fn check_relevant(l: &LocalData, g: &GlobalData) -> (r: bool)
    requires
        g.wf(),
    ensures
        r == participates_somewhere(*l, *g),
{
    let mut k: usize = 0;
    while k < l.alphabet.len()
        invariant
            0 <= k <= l.alphabet@.len(),
            g.wf(),
            forall|q: int, t: Seq<char>| 0 <= q < k ==> !(#[trigger] g.rel(l.alphabet@[q]@, t) && !g.div(l.alphabet@[q]@, t)),
        decreases l.alphabet@.len() - k,
    {
        let a = &l.alphabet[k];
        match crate::ocim::model::lookup_set(&g.related, a) {
            None => {
                proof {
                    assert forall|t: Seq<char>| !g.rel(a@, t) by {}
                }
            },
            Some(related) => {
                let mut i: usize = 0;
                while i < related.len()
                    invariant
                        0 <= i <= related@.len(),
                        g.wf(),
                        *a == l.alphabet@[k as int],
                        forall|t: Seq<char>| #![trigger seq_has(related@, t)] seq_has(related@, t) <==> g.rel(a@, t),
                        forall|j: int| 0 <= j < i ==> g.div(a@, (#[trigger] related@[j])@),
                    decreases related@.len() - i,
                {
                    if !set_contains(&g.divergence, a, &related[i]) {
                        proof {
                            assert(seq_has(related@, related@[i as int]@));
                            assert(participates(*l, *g, related@[i as int]@));
                        }
                        return true;
                    }
                    i += 1;
                }
                proof {
                    assert forall|t: Seq<char>| g.rel(a@, t) implies g.div(a@, t) by {
                        assert(seq_has(related@, t));
                        let j = choose|j: int| 0 <= j < related@.len() && (#[trigger] related@[j])@ == t;
                    }
                }
            },
        }
        k += 1;
    }
    proof {
        assert forall|t: Seq<char>| !#[trigger] participates(*l, *g, t) by {
            if participates(*l, *g, t) {
                let q = choose|q: int| 0 <= q < l.alphabet@.len() && g.rel((#[trigger] l.alphabet@[q])@, t) && !g.div(l.alphabet@[q]@, t);
            }
        }
    }
    false
}

/// Where every end activity of each object type is directly followed by each
/// start activity of that type, the ends and starts are linked.
pub proof fn lemma_end_to_start_edges_link(l: LocalData)
    requires
        forall|t: Seq<char>, a: Seq<char>, b: Seq<char>| l.end_count(t, a) > 0 && l.start_count(t, b) > 0 ==> #[trigger] l.df(t, a, b) > 0,
    ensures
        boundaries_linked(l),
{
    assert forall|k: int, ka: int, kb: int| 0 <= k < l.object_types@.len() && 0 <= ka < l.alphabet@.len() && 0 <= kb < l.alphabet@.len()
        && #[trigger] l.end_count(l.object_types@[k]@, l.alphabet@[ka]@) > 0
        && #[trigger] l.start_count(l.object_types@[k]@, l.alphabet@[kb]@) > 0
        implies l.df(l.object_types@[k]@, l.alphabet@[ka]@, l.alphabet@[kb]@) > 0 by {
        assert(l.df(l.object_types@[k]@, l.alphabet@[ka]@, l.alphabet@[kb]@) > 0);
    }
}

/// A sublog where no object is missing, whose closures are symmetric, whose
/// activities take part in their types, and where every end activity of each
/// type is directly followed by each of its start activities, is a silent-redo
/// loop: the detection answers a loop of the whole alphabet and a silent part.
pub proof fn lemma_silent_redo_found(l: LocalData, g: GlobalData, object_types_of: Seq<(String, String)>, present_types: Seq<String>,
    r: Option<(Vec<Vec<String>>, OCPTOperatorType)>)
    requires
        tau_outcome(l, g, object_types_of, present_types, r),
        l.expected_objects@.len() <= l.object_set@.len(),
        closures_symmetric(l, g),
        participates_somewhere(l, g),
        forall|t: Seq<char>, a: Seq<char>, b: Seq<char>| l.end_count(t, a) > 0 && l.start_count(t, b) > 0 ==> #[trigger] l.df(t, a, b) > 0,
    ensures
        r matches Some((p, op)) && op == OCPTOperatorType::Loop(None) && silent_split(l.alphabet@, p@),
{
    lemma_end_to_start_edges_link(l);
}

/// Where some object type has an end activity that is not directly followed by
/// one of its start activities, and no missing object gives a silent choice,
/// the detection answers no silent-redo loop.
pub proof fn lemma_unlinked_end_blocks_silent_redo(l: LocalData, g: GlobalData, object_types_of: Seq<(String, String)>, present_types: Seq<String>,
    r: Option<(Vec<Vec<String>>, OCPTOperatorType)>, k: int, ka: int, kb: int)
    requires
        tau_outcome(l, g, object_types_of, present_types, r),
        !(l.expected_objects@.len() > l.object_set@.len() && tau_missing(l, object_types_of, present_types)),
        0 <= k < l.object_types@.len(),
        0 <= ka < l.alphabet@.len(),
        0 <= kb < l.alphabet@.len(),
        l.end_count(l.object_types@[k]@, l.alphabet@[ka]@) > 0,
        l.start_count(l.object_types@[k]@, l.alphabet@[kb]@) > 0,
        l.df(l.object_types@[k]@, l.alphabet@[ka]@, l.alphabet@[kb]@) == 0,
    ensures
        r is None,
{
}

} // verus!
