//! Relations between activities that the cut definitions are built from.
use vstd::prelude::*;
use crate::ocim::common_data::{GlobalData, LocalData, set_contains};
use crate::ocim::model::{
    ObjectTypeDfg, contains_string, dfg_of, has_count_key, has_set_key, in_set_of, lemma_in_set_of_at, lookup_dfg, lookup_set, seq_has, set_keys_unique,
    strings_unique,
};

verus! {

/// For every activity `c` of `ctx`, `t` is unrelated to `c` or divergent for `c`.
pub open spec fn divergent_in_context(g: GlobalData, ctx: Seq<String>, t: Seq<char>) -> bool {
    forall|k: int| 0 <= k < ctx.len() ==> (!g.rel((#[trigger] ctx[k])@, t) || g.div(ctx[k]@, t))
}

/// `t` is related to both `a` and `b` and non-divergent for some activity of `ctx`
/// to which it is related.
pub open spec fn is_non_divergent_type(g: GlobalData, a: Seq<char>, b: Seq<char>, ctx: Seq<String>, t: Seq<char>) -> bool {
    g.rel(a, t) && g.rel(b, t) && !divergent_in_context(g, ctx, t)
}

/// `t` is related to both `a` and `b` and divergent across all of `ctx`.
pub open spec fn is_divergent_type(g: GlobalData, a: Seq<char>, b: Seq<char>, ctx: Seq<String>, t: Seq<char>) -> bool {
    g.rel(a, t) && g.rel(b, t) && divergent_in_context(g, ctx, t)
}

/// `x` occurs in some part of the partition.
pub open spec fn in_partition(p: Seq<Vec<String>>, x: Seq<char>) -> bool {
    exists|i: int| 0 <= i < p.len() && seq_has((#[trigger] p[i])@, x)
}

/// The parts together hold exactly the activities of the alphabet.
pub open spec fn covers_alphabet(p: Seq<Vec<String>>, alphabet: Seq<String>) -> bool {
    forall|x: Seq<char>| #[trigger] in_partition(p, x) <==> seq_has(alphabet, x)
}

/// `x` is mentioned by the graph: as an edge end, a start or an end activity.
pub open spec fn mentions(g: ObjectTypeDfg, x: Seq<char>) -> bool {
    (exists|i: int| 0 <= i < g.edges@.len() && ((#[trigger] g.edges@[i]).0@ == x || g.edges@[i].1@ == x))
        || has_count_key(g.starts@, x) || has_count_key(g.ends@, x)
}

/// `x` is a node of the graph of `t` restricted to `part`.
pub open spec fn proj_node(l: LocalData, part: Seq<String>, t: Seq<char>, x: Seq<char>) -> bool {
    seq_has(part, x) && l.has_dfg(t) && mentions(dfg_of(l.dfgs@, t), x)
}

/// Some edge with a nonzero count enters `x` from a node of the restricted graph.
pub open spec fn proj_entered(l: LocalData, part: Seq<String>, t: Seq<char>, x: Seq<char>) -> bool {
    exists|i: int|
        0 <= i < dfg_of(l.dfgs@, t).edges@.len() && (#[trigger] dfg_of(l.dfgs@, t).edges@[i]).1@ == x
            && dfg_of(l.dfgs@, t).edges@[i].2 != 0 && proj_node(l, part, t, dfg_of(l.dfgs@, t).edges@[i].0@)
}

/// Some edge with a nonzero count leaves `x` to a node of the restricted graph.
pub open spec fn proj_left(l: LocalData, part: Seq<String>, t: Seq<char>, x: Seq<char>) -> bool {
    exists|i: int|
        0 <= i < dfg_of(l.dfgs@, t).edges@.len() && (#[trigger] dfg_of(l.dfgs@, t).edges@[i]).0@ == x
            && dfg_of(l.dfgs@, t).edges@[i].2 != 0 && proj_node(l, part, t, dfg_of(l.dfgs@, t).edges@[i].1@)
}

/// `x` is a start activity of object type `t` once the graph is restricted to `part`.
pub open spec fn is_proj_start(l: LocalData, part: Seq<String>, t: Seq<char>, x: Seq<char>) -> bool {
    seq_has(l.object_types@, t) && proj_node(l, part, t, x) && !proj_entered(l, part, t, x)
}

/// `x` is an end activity of object type `t` once the graph is restricted to `part`.
pub open spec fn is_proj_end(l: LocalData, part: Seq<String>, t: Seq<char>, x: Seq<char>) -> bool {
    seq_has(l.object_types@, t) && proj_node(l, part, t, x) && !proj_left(l, part, t, x)
}

/// Adds `x` to `v` unless it is there already.
pub fn push_unique(v: &mut Vec<String>, x: &String)
    requires
        strings_unique(old(v)@),
    ensures
        strings_unique(final(v)@),
        forall|y: Seq<char>| #[trigger] seq_has(final(v)@, y) <==> (seq_has(old(v)@, y) || y == x@),
{
    if !contains_string(v, x) {
        let ghost before = v@;
        v.push(x.clone());
        assert forall|y: Seq<char>| #[trigger] seq_has(v@, y) <==> (seq_has(before, y) || y == x@) by {
            if seq_has(v@, y) {
                let k = choose|k: int| 0 <= k < v@.len() && (#[trigger] v@[k])@ == y;
                if k < before.len() {
                    assert(before[k] == v@[k]);
                }
            }
            if seq_has(before, y) {
                let k = choose|k: int| 0 <= k < before.len() && (#[trigger] before[k])@ == y;
                assert(v@[k] == before[k]);
            }
            if y == x@ {
                assert(v@[before.len() as int] == *x);
            }
        }
    }
}

/// Whether `t` is related to `c` and not divergent for `c`, for some `c` of `ctx`.
fn divergent_in_context_exec(g: &GlobalData, ctx: &[String], t: &String) -> (r: bool)
    requires
        g.wf(),
    ensures
        r == divergent_in_context(*g, ctx@, t@),
{
    let mut k: usize = 0;
    while k < ctx.len()
        invariant
            0 <= k <= ctx.len(),
            forall|j: int| 0 <= j < k ==> (!g.rel((#[trigger] ctx@[j])@, t@) || g.div(ctx@[j]@, t@)),
        decreases ctx.len() - k,
    {
        let c = &ctx[k];
        let in_related = set_contains(&g.related, c, t);
        let in_div = set_contains(&g.divergence, c, t);
        if in_related && !in_div {
            return false;
        }
        k += 1;
    }
    true
}

/// Shared related object types of `a` and `b` that are non-divergent for at least
/// one activity of the context to which they are related.
pub fn get_non_divergent_types(a: &String, b: &String, context_activities: &[String], global_data: &GlobalData) -> (r: Vec<String>)
    requires
        global_data.wf(),
    ensures
        strings_unique(r@),
        forall|t: Seq<char>| #[trigger] seq_has(r@, t) <==> is_non_divergent_type(*global_data, a@, b@, context_activities@, t),
{
    shared_types_filtered(a, b, context_activities, global_data, false)
}

/// Shared related object types of `a` and `b` that are divergent across the
/// whole context.
pub fn get_divergent_types(a: &String, b: &String, context_activities: &[String], global_data: &GlobalData) -> (r: Vec<String>)
    requires
        global_data.wf(),
    ensures
        strings_unique(r@),
        forall|t: Seq<char>| #[trigger] seq_has(r@, t) <==> is_divergent_type(*global_data, a@, b@, context_activities@, t),
{
    shared_types_filtered(a, b, context_activities, global_data, true)
}

fn shared_types_filtered(a: &String, b: &String, ctx: &[String], g: &GlobalData, want_divergent: bool) -> (r: Vec<String>)
    requires
        g.wf(),
    ensures
        strings_unique(r@),
        forall|t: Seq<char>| #[trigger] seq_has(r@, t) <==>
            (g.rel(a@, t) && g.rel(b@, t) && divergent_in_context(*g, ctx@, t) == want_divergent),
{
    let mut out: Vec<String> = Vec::new();
    let ra = lookup_set(&g.related, a);
    let rb = lookup_set(&g.related, b);
    match (ra, rb) {
        (Some(ra), Some(rb)) => {
            let mut i: usize = 0;
            while i < ra.len()
                invariant
                    0 <= i <= ra.len(),
                    strings_unique(out@),
                    forall|t: Seq<char>| #![trigger seq_has(ra@, t)] seq_has(ra@, t) <==> g.rel(a@, t),
                    forall|t: Seq<char>| #![trigger seq_has(rb@, t)] seq_has(rb@, t) <==> g.rel(b@, t),
                    forall|t: Seq<char>| #[trigger] seq_has(out@, t) <==>
                        ((exists|k: int| 0 <= k < i && (#[trigger] ra@[k])@ == t) && g.rel(b@, t)
                            && divergent_in_context(*g, ctx@, t) == want_divergent),
                decreases ra.len() - i,
            {
                let t = &ra[i];
                let ghost before = out@;
                if contains_string(rb, t) && divergent_in_context_exec(g, ctx, t) == want_divergent {
                    push_unique(&mut out, t);
                }
                assert forall|u: Seq<char>| #[trigger] seq_has(out@, u) <==>
                    ((exists|k: int| 0 <= k < i + 1 && (#[trigger] ra@[k])@ == u) && g.rel(b@, u)
                        && divergent_in_context(*g, ctx@, u) == want_divergent) by {
                    if u == t@ {
                        assert(ra@[i as int]@ == u);
                        assert(seq_has(rb@, u) <==> g.rel(b@, u));
                    }
                    if exists|k: int| 0 <= k < i + 1 && (#[trigger] ra@[k])@ == u {
                        let k = choose|k: int| 0 <= k < i + 1 && (#[trigger] ra@[k])@ == u;
                        if k < i {
                            assert(exists|k2: int| 0 <= k2 < i && (#[trigger] ra@[k2])@ == u);
                        }
                    }
                }
                i += 1;
            }
            assert forall|t: Seq<char>| #[trigger] seq_has(out@, t) <==>
                (g.rel(a@, t) && g.rel(b@, t) && divergent_in_context(*g, ctx@, t) == want_divergent) by {
                if g.rel(a@, t) {
                    assert(seq_has(ra@, t));
                    let k = choose|k: int| 0 <= k < ra@.len() && (#[trigger] ra@[k])@ == t;
                    assert(exists|k2: int| 0 <= k2 < i && (#[trigger] ra@[k2])@ == t);
                }
                if exists|k2: int| 0 <= k2 < i && (#[trigger] ra@[k2])@ == t {
                    let k = choose|k2: int| 0 <= k2 < i && (#[trigger] ra@[k2])@ == t;
                    assert(seq_has(ra@, t));
                }
            }
        },
        _ => {
            assert forall|t: Seq<char>| #[trigger] seq_has(out@, t) <==>
                (g.rel(a@, t) && g.rel(b@, t) && divergent_in_context(*g, ctx@, t) == want_divergent) by {
                if g.rel(a@, t) {
                    assert(has_set_key(g.related@, a@));
                }
                if g.rel(b@, t) {
                    assert(has_set_key(g.related@, b@));
                }
            }
        },
    }
    out
}


/// `x` is mentioned by the first `ie` edges, the first `is` starts or the first `ien` ends.
pub open spec fn mentions_upto(g: ObjectTypeDfg, ie: int, is: int, ien: int, x: Seq<char>) -> bool {
    (exists|i: int| 0 <= i < ie && ((#[trigger] g.edges@[i]).0@ == x || g.edges@[i].1@ == x))
        || (exists|i: int| 0 <= i < is && (#[trigger] g.starts@[i]).0@ == x)
        || (exists|i: int| 0 <= i < ien && (#[trigger] g.ends@[i]).0@ == x)
}

/// The activities of `part` that the graph mentions.
fn projected_nodes(g: &ObjectTypeDfg, part: &[String]) -> (r: Vec<String>)
    ensures
        strings_unique(r@),
        forall|x: Seq<char>| #[trigger] seq_has(r@, x) <==> (seq_has(part@, x) && mentions(*g, x)),
{
    let mut nodes: Vec<String> = Vec::new();
    let mut i: usize = 0;
    while i < g.edges.len()
        invariant
            0 <= i <= g.edges.len(),
            strings_unique(nodes@),
            forall|x: Seq<char>| #[trigger] seq_has(nodes@, x) <==> (seq_has(part@, x) && mentions_upto(*g, i as int, 0, 0, x)),
        decreases g.edges.len() - i,
    {
        let ghost prev = nodes@;
        if contains_string_slice(part, &g.edges[i].0) {
            push_unique(&mut nodes, &g.edges[i].0);
        }
        if contains_string_slice(part, &g.edges[i].1) {
            push_unique(&mut nodes, &g.edges[i].1);
        }
        assert forall|x: Seq<char>| #[trigger] seq_has(nodes@, x) <==> (seq_has(part@, x) && mentions_upto(*g, i + 1, 0, 0, x)) by {
            if mentions_upto(*g, i + 1, 0, 0, x) && !mentions_upto(*g, i as int, 0, 0, x) {
                let k = choose|k: int| 0 <= k < i + 1 && ((#[trigger] g.edges@[k]).0@ == x || g.edges@[k].1@ == x);
                assert(k == i);
            }
            if mentions_upto(*g, i as int, 0, 0, x) {
                let k = choose|k: int| 0 <= k < i && ((#[trigger] g.edges@[k]).0@ == x || g.edges@[k].1@ == x);
                assert(mentions_upto(*g, i + 1, 0, 0, x));
            }
            if x == g.edges@[i as int].0@ || x == g.edges@[i as int].1@ {
                assert(mentions_upto(*g, i + 1, 0, 0, x));
            }
        }
        i += 1;
    }
    let mut j: usize = 0;
    while j < g.starts.len()
        invariant
            0 <= j <= g.starts.len(),
            strings_unique(nodes@),
            forall|x: Seq<char>| #[trigger] seq_has(nodes@, x) <==> (seq_has(part@, x) && mentions_upto(*g, g.edges@.len() as int, j as int, 0, x)),
        decreases g.starts.len() - j,
    {
        if contains_string_slice(part, &g.starts[j].0) {
            push_unique(&mut nodes, &g.starts[j].0);
        }
        assert forall|x: Seq<char>| #[trigger] seq_has(nodes@, x) <==> (seq_has(part@, x) && mentions_upto(*g, g.edges@.len() as int, j + 1, 0, x)) by {
            let ie = g.edges@.len() as int;
            if mentions_upto(*g, ie, j + 1, 0, x) && !mentions_upto(*g, ie, j as int, 0, x) {
                let k = choose|k: int| 0 <= k < j + 1 && (#[trigger] g.starts@[k]).0@ == x;
                assert(k == j);
            }
            if mentions_upto(*g, ie, j as int, 0, x) {
                if exists|k: int| 0 <= k < j && (#[trigger] g.starts@[k]).0@ == x {
                    let k = choose|k: int| 0 <= k < j && (#[trigger] g.starts@[k]).0@ == x;
                    assert(mentions_upto(*g, ie, j + 1, 0, x));
                }
            }
            if x == g.starts@[j as int].0@ {
                assert(mentions_upto(*g, ie, j + 1, 0, x));
            }
        }
        j += 1;
    }
    let mut k: usize = 0;
    while k < g.ends.len()
        invariant
            0 <= k <= g.ends.len(),
            strings_unique(nodes@),
            forall|x: Seq<char>| #[trigger] seq_has(nodes@, x) <==>
                (seq_has(part@, x) && mentions_upto(*g, g.edges@.len() as int, g.starts@.len() as int, k as int, x)),
        decreases g.ends.len() - k,
    {
        if contains_string_slice(part, &g.ends[k].0) {
            push_unique(&mut nodes, &g.ends[k].0);
        }
        assert forall|x: Seq<char>| #[trigger] seq_has(nodes@, x) <==>
            (seq_has(part@, x) && mentions_upto(*g, g.edges@.len() as int, g.starts@.len() as int, k + 1, x)) by {
            let ie = g.edges@.len() as int;
            let is = g.starts@.len() as int;
            if mentions_upto(*g, ie, is, k + 1, x) && !mentions_upto(*g, ie, is, k as int, x) {
                let m = choose|m: int| 0 <= m < k + 1 && (#[trigger] g.ends@[m]).0@ == x;
                assert(m == k);
            }
            if mentions_upto(*g, ie, is, k as int, x) {
                if exists|m: int| 0 <= m < k && (#[trigger] g.ends@[m]).0@ == x {
                    let m = choose|m: int| 0 <= m < k && (#[trigger] g.ends@[m]).0@ == x;
                    assert(mentions_upto(*g, ie, is, k + 1, x));
                }
            }
            if x == g.ends@[k as int].0@ {
                assert(mentions_upto(*g, ie, is, k + 1, x));
            }
        }
        k += 1;
    }
    assert forall|x: Seq<char>| #[trigger] seq_has(nodes@, x) <==> (seq_has(part@, x) && mentions(*g, x)) by {
        let ie = g.edges@.len() as int;
        let is = g.starts@.len() as int;
        let ien = g.ends@.len() as int;
        if mentions(*g, x) {
            if has_count_key(g.starts@, x) {
                let m = choose|m: int| 0 <= m < is && (#[trigger] g.starts@[m]).0@ == x;
                assert(mentions_upto(*g, ie, is, ien, x));
            }
            if has_count_key(g.ends@, x) {
                let m = choose|m: int| 0 <= m < ien && (#[trigger] g.ends@[m]).0@ == x;
                assert(mentions_upto(*g, ie, is, ien, x));
            }
        }
        if mentions_upto(*g, ie, is, ien, x) {
            if exists|m: int| 0 <= m < is && (#[trigger] g.starts@[m]).0@ == x {
                let m = choose|m: int| 0 <= m < is && (#[trigger] g.starts@[m]).0@ == x;
                assert(has_count_key(g.starts@, x));
            }
            if exists|m: int| 0 <= m < ien && (#[trigger] g.ends@[m]).0@ == x {
                let m = choose|m: int| 0 <= m < ien && (#[trigger] g.ends@[m]).0@ == x;
                assert(has_count_key(g.ends@, x));
            }
        }
    }
    nodes
}

/// Whether `t` occurs in the slice `v`.
pub fn contains_string_slice(v: &[String], t: &String) -> (r: bool)
    ensures
        r == seq_has(v@, t@),
{
    let mut i: usize = 0;
    while i < v.len()
        invariant
            0 <= i <= v.len(),
            forall|k: int| 0 <= k < i ==> (#[trigger] v@[k])@ != t@,
        decreases v.len() - i,
    {
        if v[i] == *t {
            return true;
        }
        i += 1;
    }
    false
}

/// Edge `i` of `g` has a nonzero count, ends in `x` and starts in `nodes`.
pub open spec fn enters_from(g: ObjectTypeDfg, nodes: Seq<String>, x: Seq<char>, i: int) -> bool {
    g.edges@[i].1@ == x && g.edges@[i].2 != 0 && seq_has(nodes, g.edges@[i].0@)
}

/// Edge `i` of `g` has a nonzero count, starts in `x` and ends in `nodes`.
pub open spec fn leaves_to(g: ObjectTypeDfg, nodes: Seq<String>, x: Seq<char>, i: int) -> bool {
    g.edges@[i].0@ == x && g.edges@[i].2 != 0 && seq_has(nodes, g.edges@[i].1@)
}

/// The nodes that no edge of a nonzero count enters from a node (`entering`)
/// or that no such edge leaves to a node (otherwise).
fn boundary_nodes(g: &ObjectTypeDfg, nodes: &Vec<String>, entering: bool) -> (r: Vec<String>)
    requires
        strings_unique(nodes@),
    ensures
        strings_unique(r@),
        forall|x: Seq<char>| #[trigger] seq_has(r@, x) <==> (seq_has(nodes@, x) && if entering {
            !(exists|i: int| 0 <= i < g.edges@.len() && #[trigger] enters_from(*g, nodes@, x, i))
        } else {
            !(exists|i: int| 0 <= i < g.edges@.len() && #[trigger] leaves_to(*g, nodes@, x, i))
        }),
{
    let mut out: Vec<String> = Vec::new();
    let mut n: usize = 0;
    while n < nodes.len()
        invariant
            0 <= n <= nodes.len(),
            strings_unique(out@),
            forall|x: Seq<char>| #[trigger] seq_has(out@, x) <==> ((exists|m: int| 0 <= m < n && (#[trigger] nodes@[m])@ == x) && if entering {
                !(exists|i: int| 0 <= i < g.edges@.len() && #[trigger] enters_from(*g, nodes@, x, i))
            } else {
                !(exists|i: int| 0 <= i < g.edges@.len() && #[trigger] leaves_to(*g, nodes@, x, i))
            }),
        decreases nodes.len() - n,
    {
        let x = &nodes[n];
        let mut hit = false;
        let mut i: usize = 0;
        while i < g.edges.len()
            invariant
                0 <= i <= g.edges.len(),
                hit == if entering {
                    exists|k: int| 0 <= k < i && #[trigger] enters_from(*g, nodes@, x@, k)
                } else {
                    exists|k: int| 0 <= k < i && #[trigger] leaves_to(*g, nodes@, x@, k)
                },
            decreases g.edges.len() - i,
        {
            let e = &g.edges[i];
            if e.2 != 0 {
                if entering {
                    if e.1 == *x && contains_string(nodes, &e.0) {
                        hit = true;
                    }
                } else {
                    if e.0 == *x && contains_string(nodes, &e.1) {
                        hit = true;
                    }
                }
            }
            proof {
                let ii = i as int;
                assert(enters_from(*g, nodes@, x@, ii) == (e.1@ == x@ && e.2 != 0 && seq_has(nodes@, e.0@)));
                assert(leaves_to(*g, nodes@, x@, ii) == (e.0@ == x@ && e.2 != 0 && seq_has(nodes@, e.1@)));
                if exists|k: int| 0 <= k < ii + 1 && #[trigger] enters_from(*g, nodes@, x@, k) {
                    let k = choose|k: int| 0 <= k < ii + 1 && #[trigger] enters_from(*g, nodes@, x@, k);
                    if k < ii {
                        assert(exists|k2: int| 0 <= k2 < ii && #[trigger] enters_from(*g, nodes@, x@, k2));
                    }
                }
                if exists|k: int| 0 <= k < ii + 1 && #[trigger] leaves_to(*g, nodes@, x@, k) {
                    let k = choose|k: int| 0 <= k < ii + 1 && #[trigger] leaves_to(*g, nodes@, x@, k);
                    if k < ii {
                        assert(exists|k2: int| 0 <= k2 < ii && #[trigger] leaves_to(*g, nodes@, x@, k2));
                    }
                }
                if exists|k: int| 0 <= k < ii && #[trigger] enters_from(*g, nodes@, x@, k) {
                    let k = choose|k: int| 0 <= k < ii && #[trigger] enters_from(*g, nodes@, x@, k);
                    assert(exists|k2: int| 0 <= k2 < ii + 1 && #[trigger] enters_from(*g, nodes@, x@, k2));
                }
                if exists|k: int| 0 <= k < ii && #[trigger] leaves_to(*g, nodes@, x@, k) {
                    let k = choose|k: int| 0 <= k < ii && #[trigger] leaves_to(*g, nodes@, x@, k);
                    assert(exists|k2: int| 0 <= k2 < ii + 1 && #[trigger] leaves_to(*g, nodes@, x@, k2));
                }
                if enters_from(*g, nodes@, x@, ii) {
                    assert(exists|k2: int| 0 <= k2 < ii + 1 && #[trigger] enters_from(*g, nodes@, x@, k2));
                }
                if leaves_to(*g, nodes@, x@, ii) {
                    assert(exists|k2: int| 0 <= k2 < ii + 1 && #[trigger] leaves_to(*g, nodes@, x@, k2));
                }
            }
            i += 1;
        }
        let ghost prev = out@;
        if !hit {
            // nodes are unique, so `x` is not yet in `out`
            proof {
                if seq_has(out@, x@) {
                    let m = choose|m: int| 0 <= m < n && (#[trigger] nodes@[m])@ == x@;
                    assert(m == n);
                }
            }
            out.push(x.clone());
            proof {
                assert forall|a: int, b: int| 0 <= a < out@.len() && 0 <= b < out@.len() && (#[trigger] out@[a])@ == (#[trigger] out@[b])@ implies a == b by {
                    if a < prev.len() && b == prev.len() {
                        assert(seq_has(prev, out@[a]@));
                    }
                    if b < prev.len() && a == prev.len() {
                        assert(seq_has(prev, out@[b]@));
                    }
                }
            }
        }
        assert forall|y: Seq<char>| #[trigger] seq_has(out@, y) <==> ((exists|m: int| 0 <= m < n + 1 && (#[trigger] nodes@[m])@ == y) && if entering {
            !(exists|i: int| 0 <= i < g.edges@.len() && #[trigger] enters_from(*g, nodes@, y, i))
        } else {
            !(exists|i: int| 0 <= i < g.edges@.len() && #[trigger] leaves_to(*g, nodes@, y, i))
        }) by {
            if seq_has(out@, y) && !hit {
                let m = choose|m: int| 0 <= m < out@.len() && (#[trigger] out@[m])@ == y;
                if m < prev.len() {
                    assert(seq_has(prev, y));
                } else {
                    assert(nodes@[n as int]@ == y);
                }
            }
            if seq_has(out@, y) && hit {
                assert(seq_has(prev, y));
            }
            if exists|m: int| 0 <= m < n + 1 && (#[trigger] nodes@[m])@ == y {
                let m = choose|m: int| 0 <= m < n + 1 && (#[trigger] nodes@[m])@ == y;
                if m < n {
                    assert(exists|m2: int| 0 <= m2 < n && (#[trigger] nodes@[m2])@ == y);
                    if seq_has(prev, y) {
                        let q = choose|q: int| 0 <= q < prev.len() && (#[trigger] prev[q])@ == y;
                        assert(out@[q] == prev[q]);
                    }
                } else {
                    assert(y == x@);
                    if !hit {
                        assert(out@[prev.len() as int] == *x);
                    }
                }
            }
        }
        n += 1;
    }
    assert forall|x: Seq<char>| #[trigger] seq_has(out@, x) <==> (seq_has(nodes@, x) && if entering {
        !(exists|i: int| 0 <= i < g.edges@.len() && #[trigger] enters_from(*g, nodes@, x, i))
    } else {
        !(exists|i: int| 0 <= i < g.edges@.len() && #[trigger] leaves_to(*g, nodes@, x, i))
    }) by {
        if seq_has(nodes@, x) {
            let m = choose|m: int| 0 <= m < nodes@.len() && (#[trigger] nodes@[m])@ == x;
            assert(exists|m2: int| 0 <= m2 < n && (#[trigger] nodes@[m2])@ == x);
        }
    }
    out
}


/// Starts (`.0`) and ends (`.1`) of each object type of the sublog once its graph
/// is restricted to `part`; object types without a graph map to the empty set.
pub fn projected_boundaries(local_data: &LocalData, partition_part: &[String]) -> (r: (
    Vec<(String, Vec<String>)>,
    Vec<(String, Vec<String>)>,
))
    requires
        local_data.wf(),
    ensures
        set_keys_unique(r.0@),
        set_keys_unique(r.1@),
        forall|t: Seq<char>| #[trigger] has_set_key(r.0@, t) <==> seq_has(local_data.object_types@, t),
        forall|t: Seq<char>| #[trigger] has_set_key(r.1@, t) <==> seq_has(local_data.object_types@, t),
        forall|t: Seq<char>, x: Seq<char>| #[trigger] in_set_of(r.0@, t, x) <==> is_proj_start(*local_data, partition_part@, t, x),
        forall|t: Seq<char>, x: Seq<char>| #[trigger] in_set_of(r.1@, t, x) <==> is_proj_end(*local_data, partition_part@, t, x),
{
    let l = local_data;
    let ghost part = partition_part@;
    let mut starts_out: Vec<(String, Vec<String>)> = Vec::new();
    let mut ends_out: Vec<(String, Vec<String>)> = Vec::new();
    let mut i: usize = 0;
    while i < l.object_types.len()
        invariant
            0 <= i <= l.object_types.len(),
            starts_out@.len() == i,
            ends_out@.len() == i,
            forall|k: int| 0 <= k < i ==> (#[trigger] starts_out@[k]).0@ == l.object_types@[k]@,
            forall|k: int| 0 <= k < i ==> (#[trigger] ends_out@[k]).0@ == l.object_types@[k]@,
            forall|k: int, x: Seq<char>| 0 <= k < i ==> (#[trigger] seq_has(starts_out@[k].1@, x) <==> is_proj_start(*l, part, l.object_types@[k]@, x)),
            forall|k: int, x: Seq<char>| 0 <= k < i ==> (#[trigger] seq_has(ends_out@[k].1@, x) <==> is_proj_end(*l, part, l.object_types@[k]@, x)),
        decreases l.object_types.len() - i,
    {
        let ot = &l.object_types[i];
        let ghost t = ot@;
        assert(seq_has(l.object_types@, t));
        match lookup_dfg(&l.dfgs, ot) {
            None => {
                starts_out.push((ot.clone(), Vec::new()));
                ends_out.push((ot.clone(), Vec::new()));
                assert forall|x: Seq<char>| #![trigger seq_has(starts_out@[i as int].1@, x)] !is_proj_start(*l, part, t, x) && !is_proj_end(*l, part, t, x) by {}
            },
            Some(g) => {
                let nodes = projected_nodes(g, partition_part);
                let starts = boundary_nodes(g, &nodes, true);
                let ends = boundary_nodes(g, &nodes, false);
                proof {
                    assert(*g == dfg_of(l.dfgs@, t));
                    assert forall|x: Seq<char>| #[trigger] seq_has(nodes@, x) <==> proj_node(*l, part, t, x) by {}
                    assert forall|x: Seq<char>| proj_entered(*l, part, t, x) <==> (exists|k: int| 0 <= k < g.edges@.len() && #[trigger] enters_from(*g, nodes@, x, k)) by {
                        if proj_entered(*l, part, t, x) {
                            let k = choose|k: int| 0 <= k < dfg_of(l.dfgs@, t).edges@.len() && (#[trigger] dfg_of(l.dfgs@, t).edges@[k]).1@ == x
                                && dfg_of(l.dfgs@, t).edges@[k].2 != 0 && proj_node(*l, part, t, dfg_of(l.dfgs@, t).edges@[k].0@);
                            assert(seq_has(nodes@, g.edges@[k].0@));
                            assert(enters_from(*g, nodes@, x, k));
                        }
                        if exists|k: int| 0 <= k < g.edges@.len() && #[trigger] enters_from(*g, nodes@, x, k) {
                            let k = choose|k: int| 0 <= k < g.edges@.len() && #[trigger] enters_from(*g, nodes@, x, k);
                            assert(proj_node(*l, part, t, g.edges@[k].0@));
                            assert(dfg_of(l.dfgs@, t).edges@[k] == g.edges@[k]);
                        }
                    }
                    assert forall|x: Seq<char>| proj_left(*l, part, t, x) <==> (exists|k: int| 0 <= k < g.edges@.len() && #[trigger] leaves_to(*g, nodes@, x, k)) by {
                        if proj_left(*l, part, t, x) {
                            let k = choose|k: int| 0 <= k < dfg_of(l.dfgs@, t).edges@.len() && (#[trigger] dfg_of(l.dfgs@, t).edges@[k]).0@ == x
                                && dfg_of(l.dfgs@, t).edges@[k].2 != 0 && proj_node(*l, part, t, dfg_of(l.dfgs@, t).edges@[k].1@);
                            assert(seq_has(nodes@, g.edges@[k].1@));
                            assert(leaves_to(*g, nodes@, x, k));
                        }
                        if exists|k: int| 0 <= k < g.edges@.len() && #[trigger] leaves_to(*g, nodes@, x, k) {
                            let k = choose|k: int| 0 <= k < g.edges@.len() && #[trigger] leaves_to(*g, nodes@, x, k);
                            assert(proj_node(*l, part, t, g.edges@[k].1@));
                            assert(dfg_of(l.dfgs@, t).edges@[k] == g.edges@[k]);
                        }
                    }
                }
                starts_out.push((ot.clone(), starts));
                ends_out.push((ot.clone(), ends));
            },
        }
        i += 1;
    }
    proof {
        let ots = l.object_types@;
        assert forall|a: int, b: int| 0 <= a < starts_out@.len() && 0 <= b < starts_out@.len() && (#[trigger] starts_out@[a]).0@ == (#[trigger] starts_out@[b]).0@ implies a == b by {
            assert(ots[a]@ == ots[b]@);
        }
        assert forall|a: int, b: int| 0 <= a < ends_out@.len() && 0 <= b < ends_out@.len() && (#[trigger] ends_out@[a]).0@ == (#[trigger] ends_out@[b]).0@ implies a == b by {
            assert(ots[a]@ == ots[b]@);
        }
        assert forall|t: Seq<char>| #[trigger] has_set_key(starts_out@, t) <==> seq_has(ots, t) by {
            if seq_has(ots, t) {
                let k = choose|k: int| 0 <= k < ots.len() && (#[trigger] ots[k])@ == t;
                assert(starts_out@[k].0@ == t);
            }
            if has_set_key(starts_out@, t) {
                let k = choose|k: int| 0 <= k < starts_out@.len() && (#[trigger] starts_out@[k]).0@ == t;
                assert(ots[k]@ == t);
            }
        }
        assert forall|t: Seq<char>| #[trigger] has_set_key(ends_out@, t) <==> seq_has(ots, t) by {
            if seq_has(ots, t) {
                let k = choose|k: int| 0 <= k < ots.len() && (#[trigger] ots[k])@ == t;
                assert(ends_out@[k].0@ == t);
            }
            if has_set_key(ends_out@, t) {
                let k = choose|k: int| 0 <= k < ends_out@.len() && (#[trigger] ends_out@[k]).0@ == t;
                assert(ots[k]@ == t);
            }
        }
        assert forall|t: Seq<char>, x: Seq<char>| #[trigger] in_set_of(starts_out@, t, x) <==> is_proj_start(*l, part, t, x) by {
            if seq_has(ots, t) {
                let k = choose|k: int| 0 <= k < ots.len() && (#[trigger] ots[k])@ == t;
                lemma_in_set_of_at(starts_out@, k, x);
                assert(seq_has(starts_out@[k].1@, x) <==> is_proj_start(*l, part, ots[k]@, x));
            } else {
                if in_set_of(starts_out@, t, x) {
                    let k = choose|k: int| 0 <= k < starts_out@.len() && (#[trigger] starts_out@[k]).0@ == t && seq_has(starts_out@[k].1@, x);
                    assert(ots[k]@ == t);
                }
            }
        }
        assert forall|t: Seq<char>, x: Seq<char>| #[trigger] in_set_of(ends_out@, t, x) <==> is_proj_end(*l, part, t, x) by {
            if seq_has(ots, t) {
                let k = choose|k: int| 0 <= k < ots.len() && (#[trigger] ots[k])@ == t;
                lemma_in_set_of_at(ends_out@, k, x);
                assert(seq_has(ends_out@[k].1@, x) <==> is_proj_end(*l, part, ots[k]@, x));
            } else {
                if in_set_of(ends_out@, t, x) {
                    let k = choose|k: int| 0 <= k < ends_out@.len() && (#[trigger] ends_out@[k]).0@ == t && seq_has(ends_out@[k].1@, x);
                    assert(ots[k]@ == t);
                }
            }
        }
    }
    (starts_out, ends_out)
}

/// Projected start activities per object type for a partition part.
pub fn get_projected_start(local_data: &LocalData, partition_part: &[String]) -> (r: Vec<(String, Vec<String>)>)
    requires
        local_data.wf(),
    ensures
        set_keys_unique(r@),
        forall|t: Seq<char>| #[trigger] has_set_key(r@, t) <==> seq_has(local_data.object_types@, t),
        forall|t: Seq<char>, x: Seq<char>| #[trigger] in_set_of(r@, t, x) <==> is_proj_start(*local_data, partition_part@, t, x),
{
    projected_boundaries(local_data, partition_part).0
}

/// Projected end activities per object type for a partition part.
pub fn get_projected_end(local_data: &LocalData, partition_part: &[String]) -> (r: Vec<(String, Vec<String>)>)
    requires
        local_data.wf(),
    ensures
        set_keys_unique(r@),
        forall|t: Seq<char>| #[trigger] has_set_key(r@, t) <==> seq_has(local_data.object_types@, t),
        forall|t: Seq<char>, x: Seq<char>| #[trigger] in_set_of(r@, t, x) <==> is_proj_end(*local_data, partition_part@, t, x),
{
    projected_boundaries(local_data, partition_part).1
}

/// Whether `x` occurs in some part.
fn partition_contains(partitions: &[Vec<String>], x: &String) -> (r: bool)
    ensures
        r == in_partition(partitions@, x@),
{
    let mut i: usize = 0;
    while i < partitions.len()
        invariant
            0 <= i <= partitions.len(),
            forall|k: int| 0 <= k < i ==> !seq_has((#[trigger] partitions@[k])@, x@),
        decreases partitions.len() - i,
    {
        if contains_string(&partitions[i], x) {
            return true;
        }
        i += 1;
    }
    false
}

/// The parts together hold exactly the activities of the alphabet (as sets).
pub fn partitions_cover_alphabet(partitions: &[Vec<String>], alphabet: &[String]) -> (r: bool)
    ensures
        r == covers_alphabet(partitions@, alphabet@),
{
    let mut i: usize = 0;
    while i < partitions.len()
        invariant
            0 <= i <= partitions.len(),
            forall|k: int, m: int| 0 <= k < i && 0 <= m < partitions@[k]@.len() ==> seq_has(alphabet@, (#[trigger] partitions@[k]@[m])@),
        decreases partitions.len() - i,
    {
        let part = &partitions[i];
        let mut j: usize = 0;
        while j < part.len()
            invariant
                0 <= j <= part.len(),
                forall|k: int, m: int| 0 <= k < i && 0 <= m < partitions@[k]@.len() ==> seq_has(alphabet@, (#[trigger] partitions@[k]@[m])@),
                forall|m: int| 0 <= m < j ==> seq_has(alphabet@, (#[trigger] part@[m])@),
            decreases part.len() - j,
        {
            if !contains_string_slice(alphabet, &part[j]) {
                proof {
                    assert(in_partition(partitions@, part@[j as int]@)) by {
                        assert(seq_has(partitions@[i as int]@, part@[j as int]@));
                    }
                }
                return false;
            }
            j += 1;
        }
        i += 1;
    }
    let mut k: usize = 0;
    while k < alphabet.len()
        invariant
            0 <= k <= alphabet.len(),
            forall|kk: int, m: int| 0 <= kk < partitions@.len() && 0 <= m < partitions@[kk]@.len() ==> seq_has(alphabet@, (#[trigger] partitions@[kk]@[m])@),
            forall|m: int| 0 <= m < k ==> in_partition(partitions@, (#[trigger] alphabet@[m])@),
        decreases alphabet.len() - k,
    {
        if !partition_contains(partitions, &alphabet[k]) {
            proof {
                assert(seq_has(alphabet@, alphabet@[k as int]@));
            }
            return false;
        }
        k += 1;
    }
    proof {
        assert forall|x: Seq<char>| #[trigger] in_partition(partitions@, x) <==> seq_has(alphabet@, x) by {
            if in_partition(partitions@, x) {
                let kk = choose|kk: int| 0 <= kk < partitions@.len() && seq_has((#[trigger] partitions@[kk])@, x);
                let m = choose|m: int| 0 <= m < partitions@[kk]@.len() && (#[trigger] partitions@[kk]@[m])@ == x;
            }
            if seq_has(alphabet@, x) {
                let m = choose|m: int| 0 <= m < alphabet@.len() && (#[trigger] alphabet@[m])@ == x;
                assert(in_partition(partitions@, alphabet@[m]@));
            }
        }
    }
    true
}

} // verus!
