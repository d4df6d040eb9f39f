//! Detection of a loop cut: activities that some shared object type ties together
//! form the parts; the first part holding a start or end activity becomes the
//! body and the others together the redo part.
use vstd::prelude::*;
use crate::ocim::auxiliary_methods::{
    get_divergent_types, get_non_divergent_types, is_divergent_type, is_non_divergent_type,
};
use crate::ocim::common_data::{GlobalData, LocalData, df_count, end_count, set_contains, start_count};
use crate::ocim::components::{group_indices, is_component_grouping, marked_edges, square, union_components};
use crate::ocim::concurrent_cut_detection::{parts_listing, parts_of_groups};
use crate::ocim::cut_helpers::{concat_strings, flatten_parts};
use crate::ocim::loop_cut::{is_loop_cut_valid, loop_cut_valid};
use crate::ocim::model::{contains_pair, contains_string, lookup_clos, lookup_dfg, lookup_set, seq_has};
use crate::ocpt::OCPTOperatorType;

verus! {

/// `x` is a start or an end activity of object type `t`.
pub open spec fn is_boundary(l: LocalData, t: Seq<char>, x: Seq<char>) -> bool {
    l.start_count(t, x) > 0 || l.end_count(t, x) > 0
}

/// Object type `t` (with a graph) ties `a` and `b` together for a loop cut:
/// `a -> b` is missing, or `b -> a` is missing while `t` is not divergent for the
/// pair; or both are start or end activities; or `a -> b` runs from a non-end
/// to a non-start while `t` is not divergent for the pair.
pub open spec fn loop_conflict(l: LocalData, g: GlobalData, a: Seq<char>, b: Seq<char>, t: Seq<char>) -> bool {
    let divergent = is_divergent_type(g, a, b, l.alphabet@, t);
    &&& l.has_dfg(t)
    &&& {
        ||| l.df(t, a, b) == 0
        ||| (l.df(t, b, a) == 0 && !divergent)
        ||| (is_boundary(l, t, a) && is_boundary(l, t, b))
        ||| (l.df(t, a, b) > 0 && l.end_count(t, a) == 0 && l.start_count(t, b) == 0 && !divergent)
    }
}

/// Some object type shared by `a` and `b` ties them together.
pub open spec fn loop_check(l: LocalData, g: GlobalData, a: Seq<char>, b: Seq<char>) -> bool {
    exists|t: Seq<char>| #![trigger g.rel(a, t), g.rel(b, t)] g.rel(a, t) && g.rel(b, t) && loop_conflict(l, g, a, b, t)
}

/// The pairs `i < j` of alphabet positions that stay in one part.
pub open spec fn loop_edges(l: LocalData, g: GlobalData) -> spec_fn(int, int) -> bool {
    |i: int, j: int| 0 <= i < j < l.alphabet@.len() && (
        loop_check(l, g, l.alphabet@[i]@, l.alphabet@[j]@)
        || loop_check(l, g, l.alphabet@[j]@, l.alphabet@[i]@)
        || l.alphabet@[i]@ == l.alphabet@[j]@)
}

/// Every non-divergent type of two activities has a closure that relates them both ways.
pub open spec fn closures_symmetric(l: LocalData, g: GlobalData) -> bool {
    forall|ka: int, kb: int, t: Seq<char>| 0 <= ka < l.alphabet@.len() && 0 <= kb < l.alphabet@.len()
        && #[trigger] is_non_divergent_type(g, l.alphabet@[ka]@, l.alphabet@[kb]@, l.alphabet@, t)
        ==> l.has_clos(t) && l.reaches(t, l.alphabet@[ka]@, l.alphabet@[kb]@) && l.reaches(t, l.alphabet@[kb]@, l.alphabet@[ka]@)
}

/// Some activity of the alphabet is related to `t` without diverging on it.
pub open spec fn participates(l: LocalData, g: GlobalData, t: Seq<char>) -> bool {
    exists|k: int| 0 <= k < l.alphabet@.len() && g.rel((#[trigger] l.alphabet@[k])@, t) && !g.div(l.alphabet@[k]@, t)
}

/// Part `i` holds a start or end activity of `t`.
pub open spec fn has_boundary(l: LocalData, t: Seq<char>, part: Seq<String>) -> bool {
    exists|k: int| 0 <= k < part.len() && is_boundary(l, t, (#[trigger] part[k])@)
}

/// Part `i` is the first part with a start or end activity of `t`.
pub open spec fn body_part(l: LocalData, t: Seq<char>, p: Seq<Vec<String>>, i: int) -> bool {
    0 <= i < p.len() && has_boundary(l, t, p[i]@) && forall|h: int| 0 <= h < i ==> !has_boundary(l, t, #[trigger] p[h]@)
}

/// Some activity of `part` is related to `t`.
pub open spec fn related_in_part(g: GlobalData, t: Seq<char>, part: Seq<String>) -> bool {
    exists|k: int| 0 <= k < part.len() && g.rel((#[trigger] part[k])@, t)
}

/// Object type `k` settles the answer: it participates, has a graph, a body part,
/// and another part related to it.
pub open spec fn decides(l: LocalData, g: GlobalData, p: Seq<Vec<String>>, k: int, i: int) -> bool {
    let t = l.object_types@[k]@;
    &&& 0 <= k < l.object_types@.len()
    &&& participates(l, g, t)
    &&& l.has_dfg(t)
    &&& body_part(l, t, p, i)
    &&& exists|j: int| 0 <= j < p.len() && j != i && #[trigger] related_in_part(g, t, p[j]@)
}

/// No object type before `k` settles the answer.
pub open spec fn none_decides_before(l: LocalData, g: GlobalData, p: Seq<Vec<String>>, k: int) -> bool {
    forall|k2: int, i: int| 0 <= k2 < k ==> !#[trigger] decides(l, g, p, k2, i)
}

/// What the detection answers for the parts `p` of the components.
pub open spec fn loop_outcome(l: LocalData, g: GlobalData, p: Seq<Vec<String>>, r: Option<(Vec<Vec<String>>, OCPTOperatorType)>) -> bool {
    if p.len() == 1 {
        r is None
    } else if exists|k: int, i: int| #[trigger] decides(l, g, p, k, i) {
        exists|k: int, i: int| #[trigger] decides(l, g, p, k, i) && none_decides_before(l, g, p, k) && match r {
            Some((parts, op)) => op == OCPTOperatorType::Loop(None) && parts@.len() == 2 && parts@[0]@ == p[i]@
                && parts@[1]@ == flatten_parts(p.remove(i)) && loop_cut_valid(l, g, parts@),
            None => exists|q: Seq<Vec<String>>| #![auto] q.len() == 2 && q[0]@ == p[i]@ && q[1]@ == flatten_parts(p.remove(i))
                && !loop_cut_valid(l, g, q),
        }
    } else {
        r is None
    }
}

/// Whether `loop_check` holds for `a` and `b`.
fn check_loop(l: &LocalData, g: &GlobalData, a: &String, b: &String) -> (r: bool)
    requires
        l.wf(),
        g.wf(),
    ensures
        r == loop_check(*l, *g, a@, b@),
{
    let rel_a = match lookup_set(&g.related, a) {
        None => {
            proof {
                assert forall|t: Seq<char>| !g.rel(a@, t) by {}
            }
            return false;
        },
        Some(r) => r,
    };
    let rel_b = match lookup_set(&g.related, b) {
        None => {
            proof {
                assert forall|t: Seq<char>| !g.rel(b@, t) by {}
            }
            return false;
        },
        Some(r) => r,
    };
    let divergent = get_divergent_types(a, b, l.alphabet.as_slice(), g);
    let mut k: usize = 0;
    while k < rel_a.len()
        invariant
            0 <= k <= rel_a@.len(),
            l.wf(),
            g.wf(),
            forall|t: Seq<char>| #![trigger seq_has(rel_a@, t)] seq_has(rel_a@, t) <==> g.rel(a@, t),
            forall|t: Seq<char>| #![trigger seq_has(rel_b@, t)] seq_has(rel_b@, t) <==> g.rel(b@, t),
            forall|t: Seq<char>| #![trigger seq_has(divergent@, t)] seq_has(divergent@, t) <==> is_divergent_type(*g, a@, b@, l.alphabet@, t),
            forall|q: int| 0 <= q < k ==> !(g.rel(b@, (#[trigger] rel_a@[q])@) && loop_conflict(*l, *g, a@, b@, rel_a@[q]@)),
        decreases rel_a@.len() - k,
    {
        let t = &rel_a[k];
        proof {
            assert(seq_has(rel_a@, t@));
        }
        if contains_string(rel_b, t) && lookup_dfg(&l.dfgs, t).is_some() {
            let div = contains_string(&divergent, t);
            let ab = df_count(l, t, a, b);
            let ba = df_count(l, t, b, a);
            if ab == 0 || (ba == 0 && !div) {
                return true;
            }
            let a_boundary = start_count(l, t, a) > 0 || end_count(l, t, a) > 0;
            let b_boundary = start_count(l, t, b) > 0 || end_count(l, t, b) > 0;
            if a_boundary && b_boundary {
                return true;
            }
            if ab > 0 && end_count(l, t, a) == 0 && start_count(l, t, b) == 0 && !div {
                return true;
            }
        }
        k += 1;
    }
    proof {
        assert forall|t: Seq<char>| g.rel(a@, t) && g.rel(b@, t) implies !loop_conflict(*l, *g, a@, b@, t) by {
            assert(seq_has(rel_a@, t));
            let q = choose|q: int| 0 <= q < rel_a@.len() && (#[trigger] rel_a@[q])@ == t;
        }
    }
    false
}

/// Whether `closures_symmetric` holds.
pub(crate) fn check_closures_symmetric(l: &LocalData, g: &GlobalData) -> (r: bool)
    requires
        l.wf(),
        g.wf(),
    ensures
        r == closures_symmetric(*l, *g),
{
    let alph = &l.alphabet;
    let n = alph.len();
    let mut ka: usize = 0;
    while ka < n
        invariant
            0 <= ka <= n,
            n == alph@.len(),
            *alph == l.alphabet,
            l.wf(),
            g.wf(),
            forall|x: int, y: int, t: Seq<char>| 0 <= x < ka && 0 <= y < n && #[trigger] is_non_divergent_type(*g, alph@[x]@, alph@[y]@, alph@, t)
                ==> l.has_clos(t) && l.reaches(t, alph@[x]@, alph@[y]@) && l.reaches(t, alph@[y]@, alph@[x]@),
        decreases n - ka,
    {
        let mut kb: usize = 0;
        while kb < n
            invariant
                0 <= ka < n,
                0 <= kb <= n,
                n == alph@.len(),
                *alph == l.alphabet,
                l.wf(),
                g.wf(),
                forall|x: int, y: int, t: Seq<char>| 0 <= x < ka && 0 <= y < n && #[trigger] is_non_divergent_type(*g, alph@[x]@, alph@[y]@, alph@, t)
                    ==> l.has_clos(t) && l.reaches(t, alph@[x]@, alph@[y]@) && l.reaches(t, alph@[y]@, alph@[x]@),
                forall|y: int, t: Seq<char>| 0 <= y < kb && #[trigger] is_non_divergent_type(*g, alph@[ka as int]@, alph@[y]@, alph@, t)
                    ==> l.has_clos(t) && l.reaches(t, alph@[ka as int]@, alph@[y]@) && l.reaches(t, alph@[y]@, alph@[ka as int]@),
            decreases n - kb,
        {
            let a = &alph[ka];
            let b = &alph[kb];
            let types = get_non_divergent_types(a, b, alph.as_slice(), g);
            let mut m: usize = 0;
            while m < types.len()
                invariant
                    0 <= m <= types@.len(),
                    l.wf(),
                    forall|q: int| 0 <= q < m ==> l.has_clos((#[trigger] types@[q])@) && l.reaches(types@[q]@, a@, b@) && l.reaches(types@[q]@, b@, a@),
                decreases types@.len() - m,
            {
                let t = &types[m];
                proof {
                    assert(seq_has(types@, t@));
                }
                match lookup_clos(&l.clos, t) {
                    None => {
                        return false;
                    },
                    Some(clos) => {
                        if !contains_pair(clos, a, b) || !contains_pair(clos, b, a) {
                            return false;
                        }
                    },
                }
                m += 1;
            }
            proof {
                assert forall|t: Seq<char>| #[trigger] is_non_divergent_type(*g, alph@[ka as int]@, alph@[kb as int]@, alph@, t)
                    implies l.has_clos(t) && l.reaches(t, alph@[ka as int]@, alph@[kb as int]@) && l.reaches(t, alph@[kb as int]@, alph@[ka as int]@) by {
                    assert(seq_has(types@, t));
                    let q = choose|q: int| 0 <= q < types@.len() && (#[trigger] types@[q])@ == t;
                }
            }
            kb += 1;
        }
        ka += 1;
    }
    true
}

/// Whether `participates` holds for `t`.
pub(crate) fn check_participates(l: &LocalData, g: &GlobalData, t: &String) -> (r: bool)
    requires
        g.wf(),
    ensures
        r == participates(*l, *g, t@),
{
    let mut k: usize = 0;
    while k < l.alphabet.len()
        invariant
            0 <= k <= l.alphabet@.len(),
            g.wf(),
            forall|q: int| 0 <= q < k ==> !(g.rel((#[trigger] l.alphabet@[q])@, t@) && !g.div(l.alphabet@[q]@, t@)),
        decreases l.alphabet@.len() - k,
    {
        let act = &l.alphabet[k];
        if set_contains(&g.related, act, t) && !set_contains(&g.divergence, act, t) {
            return true;
        }
        k += 1;
    }
    false
}

/// Whether `has_boundary` holds for `part`.
fn check_has_boundary(l: &LocalData, t: &String, part: &Vec<String>) -> (r: bool)
    requires
        l.wf(),
    ensures
        r == has_boundary(*l, t@, part@),
{
    let mut k: usize = 0;
    while k < part.len()
        invariant
            0 <= k <= part@.len(),
            l.wf(),
            forall|q: int| 0 <= q < k ==> !is_boundary(*l, t@, (#[trigger] part@[q])@),
        decreases part@.len() - k,
    {
        if start_count(l, t, &part[k]) > 0 || end_count(l, t, &part[k]) > 0 {
            return true;
        }
        k += 1;
    }
    false
}

/// The first part with a start or end activity of `t`, if any.
pub(crate) fn first_body_part(l: &LocalData, t: &String, p: &Vec<Vec<String>>) -> (r: Option<usize>)
    requires
        l.wf(),
    ensures
        r matches Some(i) ==> body_part(*l, t@, p@, i as int),
        r is None ==> forall|h: int| 0 <= h < p@.len() ==> !has_boundary(*l, t@, #[trigger] p@[h]@),
{
    let mut i: usize = 0;
    while i < p.len()
        invariant
            0 <= i <= p@.len(),
            l.wf(),
            forall|h: int| 0 <= h < i ==> !has_boundary(*l, t@, #[trigger] p@[h]@),
        decreases p@.len() - i,
    {
        if check_has_boundary(l, t, &p[i]) {
            return Some(i);
        }
        i += 1;
    }
    None
}

/// Whether a part other than `i` holds an activity related to `t`.
pub(crate) fn related_elsewhere(g: &GlobalData, t: &String, p: &Vec<Vec<String>>, i: usize) -> (r: bool)
    requires
        g.wf(),
    ensures
        r == exists|j: int| 0 <= j < p@.len() && j != i && #[trigger] related_in_part(*g, t@, p@[j]@),
{
    let mut j: usize = 0;
    while j < p.len()
        invariant
            0 <= j <= p@.len(),
            g.wf(),
            forall|h: int| 0 <= h < j && h != i ==> !#[trigger] related_in_part(*g, t@, p@[h]@),
        decreases p@.len() - j,
    {
        if j != i {
            let part = &p[j];
            let mut k: usize = 0;
            while k < part.len()
                invariant
                    0 <= k <= part@.len(),
                    part@ == p@[j as int]@,
                    g.wf(),
                    forall|q: int| 0 <= q < k ==> !g.rel((#[trigger] part@[q])@, t@),
                decreases part@.len() - k,
            {
                if set_contains(&g.related, &part[k], t) {
                    assert(related_in_part(*g, t@, p@[j as int]@));
                    return true;
                }
                k += 1;
            }
        }
        j += 1;
    }
    false
}

/// The concatenation of the parts other than `i`, in order.
pub(crate) fn others_flattened(p: &Vec<Vec<String>>, i: usize) -> (r: Vec<String>)
    requires
        i < p@.len(),
    ensures
        r@ == flatten_parts(p@.remove(i as int)),
{
    let mut out: Vec<String> = Vec::new();
    let mut k: usize = 0;
    let ghost q = p@.remove(i as int);
    assert(q.take(0) =~= Seq::<Vec<String>>::empty());
    while k < p.len()
        invariant
            0 <= k <= p@.len(),
            i < p@.len(),
            q == p@.remove(i as int),
            out@ == flatten_parts(q.take(if k <= i { k as int } else { k - 1 })),
        decreases p@.len() - k,
    {
        if k != i {
            let next = concat_strings(out.as_slice(), p[k].as_slice());
            out = next;
            proof {
                let m = if k < i { k as int } else { k - 1 };
                assert(q[m] == p@[k as int]);
                assert(q.take(m + 1).drop_last() =~= q.take(m));
                assert(q.take(m + 1).last() == q[m]);
            }
        }
        k += 1;
    }
    assert(q.take(p@.len() - 1) =~= q);
    out
}

pub(crate) proof fn lemma_body_part_unique(l: LocalData, t: Seq<char>, p: Seq<Vec<String>>, i1: int, i2: int)
    requires
        body_part(l, t, p, i1),
        body_part(l, t, p, i2),
    ensures
        i1 == i2,
{
    if i1 < i2 {
        assert(!has_boundary(l, t, p[i1]@));
    } else if i2 < i1 {
        assert(!has_boundary(l, t, p[i2]@));
    }
}

/// Detects a loop cut: when the closures of all non-divergent types relate every
/// two activities both ways, activities tied by some shared object type form the
/// parts; the first object type (in order) that participates, has a graph, a
/// part with a start or end activity (the body, the first such part) and another
/// related part decides: the body and the rest form the cut if it is valid.
pub fn find_cut_loop(local_data: &LocalData, global_data: &GlobalData) -> (r: Option<(Vec<Vec<String>>, OCPTOperatorType)>)
    requires
        local_data.wf(),
        global_data.wf(),
    ensures
        !closures_symmetric(*local_data, *global_data) ==> r is None,
        closures_symmetric(*local_data, *global_data) ==> exists|groups: Seq<Vec<usize>>, p: Seq<Vec<String>>|
            #[trigger] is_component_grouping(groups, loop_edges(*local_data, *global_data), local_data.alphabet@.len() as int)
            && #[trigger] parts_listing(p, groups, local_data.alphabet@)
            && loop_outcome(*local_data, *global_data, p, r),
{
    let l = local_data;
    let g = global_data;
    if !check_closures_symmetric(l, g) {
        return None;
    }
    let ghost e = loop_edges(*l, *g);
    let n = l.alphabet.len();
    let mut adj: Vec<Vec<bool>> = Vec::new();
    let mut i: usize = 0;
    while i < n
        invariant
            0 <= i <= n,
            n == l.alphabet@.len(),
            l.wf(),
            g.wf(),
            e == loop_edges(*l, *g),
            adj@.len() == i,
            forall|a: int| 0 <= a < i ==> (#[trigger] adj@[a])@.len() == n,
            forall|a: int, b: int| 0 <= a < i && 0 <= b < n ==> (adj@[a]@[b] <==> e(a, b)),
        decreases n - i,
    {
        let mut row: Vec<bool> = Vec::new();
        let mut j: usize = 0;
        while j < n
            invariant
                0 <= i < n,
                0 <= j <= n,
                n == l.alphabet@.len(),
                l.wf(),
                g.wf(),
                e == loop_edges(*l, *g),
                row@.len() == j,
                forall|b: int| 0 <= b < j ==> (row@[b] <==> e(i as int, b)),
            decreases n - j,
        {
            let ai = &l.alphabet[i];
            let aj = &l.alphabet[j];
            let linked = j > i && (check_loop(l, g, ai, aj) || check_loop(l, g, aj, ai) || *ai == *aj);
            row.push(linked);
            j += 1;
        }
        adj.push(row);
        i += 1;
    }
    proof {
        assert(square(adj@));
        assert(marked_edges(adj@) =~= e);
    }
    let uf = union_components(&adj);
    let groups = group_indices(&uf, n, Ghost(e));
    let partition = parts_of_groups(&l.alphabet, &groups);
    let ghost p = partition@;
    if partition.len() == 1 {
        return None;
    }
    let mut k: usize = 0;
    while k < l.object_types.len()
        invariant
            0 <= k <= l.object_types@.len(),
            l.wf(),
            g.wf(),
            p == partition@,
            p.len() != 1,
            none_decides_before(*l, *g, p, k as int),
        decreases l.object_types@.len() - k,
    {
        let t = &l.object_types[k];
        if check_participates(l, g, t) && lookup_dfg(&l.dfgs, t).is_some() {
            match first_body_part(l, t, &partition) {
                None => {
                    proof {
                        assert forall|k2: int, bi: int| 0 <= k2 < k + 1 implies !#[trigger] decides(*l, *g, p, k2, bi) by {
                            if k2 == k && decides(*l, *g, p, k2, bi) {
                                assert(has_boundary(*l, t@, p[bi]@));
                            }
                        }
                    }
                },
                Some(bi) => {
                    if related_elsewhere(g, t, &partition, bi) {
                        let empty: Vec<String> = Vec::new();
                        let body = concat_strings(partition[bi].as_slice(), empty.as_slice());
                        let redo = others_flattened(&partition, bi);
                        let mut parts: Vec<Vec<String>> = Vec::new();
                        parts.push(body);
                        parts.push(redo);
                        proof {
                            assert(parts@[0]@ =~= p[bi as int]@);
                            assert(decides(*l, *g, p, k as int, bi as int));
                        }
                        if is_loop_cut_valid(l, g, parts.as_slice()) {
                            return Some((parts, OCPTOperatorType::Loop(None)));
                        } else {
                            return None;
                        }
                    }
                    proof {
                        assert forall|k2: int, bi2: int| 0 <= k2 < k + 1 implies !#[trigger] decides(*l, *g, p, k2, bi2) by {
                            if k2 == k && decides(*l, *g, p, k2, bi2) {
                                lemma_body_part_unique(*l, t@, p, bi as int, bi2);
                            }
                        }
                    }
                },
            }
        } else {
            proof {
                assert forall|k2: int, bi: int| 0 <= k2 < k + 1 implies !#[trigger] decides(*l, *g, p, k2, bi) by {}
            }
        }
        k += 1;
    }
    proof {
        assert(!exists|k2: int, bi: int| #[trigger] decides(*l, *g, p, k2, bi));
    }
    None
}

/// A loop cut can separate a body activity that starts and ends the object
/// type from a redo activity that does neither, where each directly follows
/// the other: the type does not tie them, in either order.
pub proof fn lemma_body_and_redo_not_tied(l: LocalData, g: GlobalData, a: Seq<char>, b: Seq<char>, t: Seq<char>)
    requires
        l.has_dfg(t),
        l.df(t, a, b) > 0,
        l.df(t, b, a) > 0,
        l.start_count(t, a) > 0,
        l.end_count(t, a) > 0,
        l.start_count(t, b) == 0,
        l.end_count(t, b) == 0,
    ensures
        !loop_conflict(l, g, a, b, t),
        !loop_conflict(l, g, b, a, t),
{
}

/// Where every object type shared by a body activity `a` and a redo activity
/// `b` either has no graph or has `a` as a start and an end, `b` as neither,
/// and edges both ways, nothing ties the two together.
pub proof fn lemma_body_and_redo_separate(l: LocalData, g: GlobalData, a: Seq<char>, b: Seq<char>)
    requires
        forall|t: Seq<char>| #![trigger g.rel(a, t), g.rel(b, t)] g.rel(a, t) && g.rel(b, t) ==> !l.has_dfg(t) || (
            l.df(t, a, b) > 0 && l.df(t, b, a) > 0 && l.start_count(t, a) > 0 && l.end_count(t, a) > 0
            && l.start_count(t, b) == 0 && l.end_count(t, b) == 0),
    ensures
        !loop_check(l, g, a, b),
        !loop_check(l, g, b, a),
{
    assert forall|t: Seq<char>| g.rel(a, t) && g.rel(b, t) implies !loop_conflict(l, g, a, b, t) && !loop_conflict(l, g, b, a, t) by {
        if l.has_dfg(t) {
            lemma_body_and_redo_not_tied(l, g, a, b, t);
        }
    }
}

/// Two activities with edges both ways, of which only `a` is a boundary (an
/// end activity) and `b` is neither a start nor an end, are not tied by the
/// type in the order `a`, `b`: one boundary activity is not enough.
pub proof fn lemma_single_boundary_not_tied(l: LocalData, g: GlobalData, a: Seq<char>, b: Seq<char>, t: Seq<char>)
    requires
        l.has_dfg(t),
        l.df(t, a, b) > 0,
        l.df(t, b, a) > 0,
        l.end_count(t, a) > 0,
        l.start_count(t, b) == 0,
        l.end_count(t, b) == 0,
    ensures
        !loop_conflict(l, g, a, b, t),
{
}

/// Two activities of a type with a graph where the first is never directly
/// followed by the second stay in one part of a loop cut.
pub proof fn lemma_missing_edge_ties(l: LocalData, g: GlobalData, a: Seq<char>, b: Seq<char>, t: Seq<char>)
    requires
        l.has_dfg(t),
        l.df(t, a, b) == 0,
    ensures
        loop_conflict(l, g, a, b, t),
{
}

/// Two activities that both start or end a type with a graph stay in one part
/// of a loop cut.
pub proof fn lemma_two_boundaries_tie(l: LocalData, g: GlobalData, a: Seq<char>, b: Seq<char>, t: Seq<char>)
    requires
        l.has_dfg(t),
        l.start_count(t, a) > 0 || l.end_count(t, a) > 0,
        l.start_count(t, b) > 0 || l.end_count(t, b) > 0,
    ensures
        loop_conflict(l, g, a, b, t),
{
}

} // verus!
