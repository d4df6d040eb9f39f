//! Fall-through detection, up to its scores: how the activities are grouped, and
//! which candidate splits pass the fall-through definitions. Choosing among the
//! candidates by their fitness scores is left to the caller.
use vstd::prelude::*;
use crate::ocim::auxiliary_methods::{
    covers_alphabet, get_divergent_types, get_non_divergent_types, in_partition, is_divergent_type,
    is_non_divergent_type,
};
use crate::ocim::common_data::{GlobalData, LocalData, df_count, end_count, start_count};
use crate::ocim::components::{group_indices, is_component_grouping, marked_edges, square, union_components};
use crate::ocim::concurrent_cut_detection::{parts_listing, parts_of_groups};
use crate::ocim::auxiliary_methods::partitions_cover_alphabet;
use crate::ocim::cut_helpers::{concat_strings, flatten_parts, flatten_range, segment};
use crate::ocim::fallthrough_definition::{
    exclusive_fallthrough_valid, exclusive_pair_ok, is_concurrent_fallthrough_valid, is_exclusive_fallthrough_valid,
    is_loop_fallthrough_valid, is_sequence_fallthrough_valid, loop_fallthrough_valid, sequence_fallthrough_valid,
    sequence_pair_ok,
};
use crate::ocim::loop_cut_detection::{
    body_part, check_participates, decides, first_body_part, is_boundary, lemma_body_part_unique,
    others_flattened, related_elsewhere,
};
use crate::ocim::model::{contains_pair, contains_string, lookup_clos, lookup_dfg, lookup_set, seq_has};
use crate::ocim::sequence_cut_detection::{
    components_listing, holds_alphabet, lemma_listing_holds_alphabet, part_reach, partition_closure,
    topo_order_partitions, topo_ordered,
};

verus! {

/// Groups the alphabet into the connected components of the pairs `i < j` that
/// the matrix marks, in order of their first activity.
pub fn connected_components_by_predicate(alphabet: &Vec<String>, adj: &Vec<Vec<bool>>) -> (r: Vec<Vec<String>>)
    requires
        square(adj@),
        adj@.len() == alphabet@.len(),
    ensures
        components_listing(r@, marked_edges(adj@), alphabet@),
{
    let uf = union_components(adj);
    let groups = group_indices(&uf, alphabet.len(), Ghost(marked_edges(adj@)));
    let r = parts_of_groups(alphabet, &groups);
    assert(is_component_grouping(groups@, marked_edges(adj@), alphabet@.len() as int) && parts_listing(r@, groups@, alphabet@));
    r
}

// ---------------------------------------------------------------------------
// Loop fall-through.

/// Object type `t` (with a graph) pairs `a` and `b`: both are start or end
/// activities of it, or `a -> b` runs from a non-end to a non-start while `t` is
/// not divergent for the pair within the alphabet.
pub open spec fn loop_pair_by(l: LocalData, g: GlobalData, a: Seq<char>, b: Seq<char>, t: Seq<char>) -> bool {
    &&& l.has_dfg(t)
    &&& {
        ||| (is_boundary(l, t, a) && is_boundary(l, t, b))
        ||| (l.df(t, a, b) > 0 && l.end_count(t, a) == 0 && l.start_count(t, b) == 0
            && !is_divergent_type(g, a, b, l.alphabet@, t))
    }
}

/// Some object type divergent for both `a` and `b` pairs them.
pub open spec fn loop_pair(l: LocalData, g: GlobalData, a: Seq<char>, b: Seq<char>) -> bool {
    exists|t: Seq<char>| #![trigger g.div(a, t), g.div(b, t)] g.div(a, t) && g.div(b, t) && loop_pair_by(l, g, a, b, t)
}

/// The pairs `i < j` of alphabet positions whose activities `loop_pair` pairs.
pub open spec fn loop_pair_edges(l: LocalData, g: GlobalData) -> spec_fn(int, int) -> bool {
    |i: int, j: int| 0 <= i < j < l.alphabet@.len() && loop_pair(l, g, l.alphabet@[i]@, l.alphabet@[j]@)
}

/// Whether `loop_pair` holds for `a` and `b`.
pub fn detect_loop_pair(local_data: &LocalData, global_data: &GlobalData, a: &String, b: &String) -> (r: bool)
    requires
        local_data.wf(),
        global_data.wf(),
    ensures
        r == loop_pair(*local_data, *global_data, a@, b@),
{
    let l = local_data;
    let g = global_data;
    let div_a = match lookup_set(&g.divergence, a) {
        None => {
            proof {
                assert forall|t: Seq<char>| !g.div(a@, t) by {}
            }
            return false;
        },
        Some(d) => d,
    };
    let div_b = match lookup_set(&g.divergence, b) {
        None => {
            proof {
                assert forall|t: Seq<char>| !g.div(b@, t) by {}
            }
            return false;
        },
        Some(d) => d,
    };
    let divergent = get_divergent_types(a, b, l.alphabet.as_slice(), g);
    let mut k: usize = 0;
    while k < div_a.len()
        invariant
            0 <= k <= div_a@.len(),
            l.wf(),
            g.wf(),
            forall|t: Seq<char>| #![trigger seq_has(div_a@, t)] seq_has(div_a@, t) <==> g.div(a@, t),
            forall|t: Seq<char>| #![trigger seq_has(div_b@, t)] seq_has(div_b@, t) <==> g.div(b@, t),
            forall|t: Seq<char>| #![trigger seq_has(divergent@, t)] seq_has(divergent@, t) <==> is_divergent_type(*g, a@, b@, l.alphabet@, t),
            forall|q: int| 0 <= q < k ==> !(g.div(b@, (#[trigger] div_a@[q])@) && loop_pair_by(*l, *g, a@, b@, div_a@[q]@)),
        decreases div_a@.len() - k,
    {
        let t = &div_a[k];
        proof {
            assert(seq_has(div_a@, t@));
        }
        if contains_string(div_b, t) && lookup_dfg(&l.dfgs, t).is_some() {
            let a_start_end = start_count(l, t, a) > 0 || end_count(l, t, a) > 0;
            let b_start_end = start_count(l, t, b) > 0 || end_count(l, t, b) > 0;
            if a_start_end && b_start_end {
                return true;
            }
            let edge_ab = df_count(l, t, a, b) > 0;
            let b_start = start_count(l, t, b) > 0;
            let a_end = end_count(l, t, a) > 0;
            if edge_ab && !a_end && !b_start && !contains_string(&divergent, t) {
                return true;
            }
        }
        k += 1;
    }
    proof {
        assert forall|t: Seq<char>| g.div(a@, t) && g.div(b@, t) implies !loop_pair_by(*l, *g, a@, b@, t) by {
            assert(seq_has(div_a@, t));
            let q = choose|q: int| 0 <= q < div_a@.len() && (#[trigger] div_a@[q])@ == t;
        }
    }
    false
}

/// The grouping of the loop fall-through: the connected components of the
/// pairs of `loop_pair`.
pub fn loop_fallthrough_partition(local_data: &LocalData, global_data: &GlobalData) -> (r: Vec<Vec<String>>)
    requires
        local_data.wf(),
        global_data.wf(),
    ensures
        components_listing(r@, loop_pair_edges(*local_data, *global_data), local_data.alphabet@),
{
    let l = local_data;
    let g = global_data;
    let ghost e = loop_pair_edges(*l, *g);
    let n = l.alphabet.len();
    let mut adj: Vec<Vec<bool>> = Vec::new();
    let mut i: usize = 0;
    while i < n
        invariant
            0 <= i <= n,
            n == l.alphabet@.len(),
            l.wf(),
            g.wf(),
            e == loop_pair_edges(*l, *g),
            adj@.len() == i,
            forall|a: int| 0 <= a < i ==> (#[trigger] adj@[a])@.len() == n,
            forall|a: int, b: int| 0 <= a < i && 0 <= b < n ==> (adj@[a]@[b] <==> e(a, b)),
        decreases n - i,
    {
        let mut row: Vec<bool> = Vec::new();
        let mut j: usize = 0;
        while j < n
            invariant
                0 <= i < n,
                0 <= j <= n,
                n == l.alphabet@.len(),
                l.wf(),
                g.wf(),
                e == loop_pair_edges(*l, *g),
                row@.len() == j,
                forall|b: int| 0 <= b < j ==> (row@[b] <==> e(i as int, b)),
            decreases n - j,
        {
            let linked = j > i && detect_loop_pair(l, g, &l.alphabet[i], &l.alphabet[j]);
            row.push(linked);
            j += 1;
        }
        adj.push(row);
        i += 1;
    }
    proof {
        assert(square(adj@));
        assert(marked_edges(adj@) =~= e);
    }
    connected_components_by_predicate(&l.alphabet, &adj)
}

/// Candidate `c` is the loop fall-through of object type `k` over the parts `p`:
/// the type decides with body part `i` (see `decides`), and the body and the
/// concatenation of the other parts, both non-empty, form a valid loop
/// fall-through.
pub open spec fn loop_candidate_ok(l: LocalData, g: GlobalData, p: Seq<Vec<String>>, k: int, c: Seq<Vec<String>>) -> bool {
    exists|i: int| #[trigger] decides(l, g, p, k, i) && c.len() == 2 && c[0]@ == p[i]@
        && c[1]@ == flatten_parts(p.remove(i)) && c[0]@.len() > 0 && c[1]@.len() > 0
        && loop_fallthrough_valid(l, g, c)
}

/// Object type `k` yields a loop fall-through candidate over the parts `p`.
pub open spec fn has_loop_candidate(l: LocalData, g: GlobalData, p: Seq<Vec<String>>, k: int) -> bool {
    exists|c: Seq<Vec<String>>| #[trigger] loop_candidate_ok(l, g, p, k, c)
}

/// Validity of a loop fall-through depends on the activities of its two parts only.
proof fn lemma_loop_valid_by_views(l: LocalData, g: GlobalData, c1: Seq<Vec<String>>, c2: Seq<Vec<String>>)
    requires
        c1.len() == 2,
        c2.len() == 2,
        c1[0]@ == c2[0]@,
        c1[1]@ == c2[1]@,
    ensures
        loop_fallthrough_valid(l, g, c1) == loop_fallthrough_valid(l, g, c2),
{
    assert forall|x: Seq<char>| #[trigger] in_partition(c1, x) == in_partition(c2, x) by {
        if in_partition(c1, x) {
            let i = choose|i: int| 0 <= i < c1.len() && seq_has((#[trigger] c1[i])@, x);
            assert(seq_has(c2[i]@, x));
        }
        if in_partition(c2, x) {
            let i = choose|i: int| 0 <= i < c2.len() && seq_has((#[trigger] c2[i])@, x);
            assert(seq_has(c1[i]@, x));
        }
    }
    if covers_alphabet(c1, l.alphabet@) {
        assert forall|x: Seq<char>| #[trigger] in_partition(c2, x) <==> seq_has(l.alphabet@, x) by {
            assert(in_partition(c1, x) == in_partition(c2, x));
        }
    }
    if covers_alphabet(c2, l.alphabet@) {
        assert forall|x: Seq<char>| #[trigger] in_partition(c1, x) <==> seq_has(l.alphabet@, x) by {
            assert(in_partition(c1, x) == in_partition(c2, x));
        }
    }
}

/// The loop fall-through candidates over the parts, in the order of the object
/// types, each with the number of the object type that yields it; the object
/// types left out yield none.
pub fn loop_fallthrough_candidates(local_data: &LocalData, global_data: &GlobalData, partition: &Vec<Vec<String>>) -> (r: Vec<(usize, Vec<Vec<String>>)>)
    requires
        local_data.wf(),
        global_data.wf(),
    ensures
        forall|m1: int, m2: int| 0 <= m1 < m2 < r@.len() ==> (#[trigger] r@[m1]).0 < (#[trigger] r@[m2]).0,
        forall|m: int| 0 <= m < r@.len() ==> (#[trigger] r@[m]).0 < local_data.object_types@.len()
            && loop_candidate_ok(*local_data, *global_data, partition@, r@[m].0 as int, r@[m].1@),
        forall|k: int| 0 <= k < local_data.object_types@.len() && (forall|m: int| 0 <= m < r@.len() ==> (#[trigger] r@[m]).0 != k)
            ==> !has_loop_candidate(*local_data, *global_data, partition@, k),
{
    let l = local_data;
    let g = global_data;
    let ghost p = partition@;
    let mut out: Vec<(usize, Vec<Vec<String>>)> = Vec::new();
    let mut k: usize = 0;
    while k < l.object_types.len()
        invariant
            0 <= k <= l.object_types@.len(),
            l.wf(),
            g.wf(),
            p == partition@,
            forall|m1: int, m2: int| 0 <= m1 < m2 < out@.len() ==> (#[trigger] out@[m1]).0 < (#[trigger] out@[m2]).0,
            forall|m: int| 0 <= m < out@.len() ==> (#[trigger] out@[m]).0 < k
                && loop_candidate_ok(*l, *g, p, out@[m].0 as int, out@[m].1@),
            forall|k2: int| 0 <= k2 < k && (forall|m: int| 0 <= m < out@.len() ==> (#[trigger] out@[m]).0 != k2)
                ==> !has_loop_candidate(*l, *g, p, k2),
        decreases l.object_types@.len() - k,
    {
        let ghost before = out@;
        let t = &l.object_types[k];
        let mut found = false;
        if check_participates(l, g, t) {
            match first_body_part(l, t, partition) {
                None => {},
                Some(bi) => {
                    if !related_elsewhere(g, t, partition, bi) {
                        proof {
                            assert forall|c: Seq<Vec<String>>| !#[trigger] loop_candidate_ok(*l, *g, p, k as int, c) by {
                                if loop_candidate_ok(*l, *g, p, k as int, c) {
                                    let i2 = choose|i2: int| #[trigger] decides(*l, *g, p, k as int, i2) && c.len() == 2 && c[0]@ == p[i2]@
                                        && c[1]@ == flatten_parts(p.remove(i2)) && c[0]@.len() > 0 && c[1]@.len() > 0
                                        && loop_fallthrough_valid(*l, *g, c);
                                    lemma_body_part_unique(*l, t@, p, i2, bi as int);
                                }
                            }
                        }
                    } else {
                        let empty: Vec<String> = Vec::new();
                        let body = concat_strings(partition[bi].as_slice(), empty.as_slice());
                        let redo = others_flattened(partition, bi);
                        assert(body@ =~= p[bi as int]@);
                        assert(decides(*l, *g, p, k as int, bi as int));
                        if body.len() > 0 && redo.len() > 0 {
                            let mut parts: Vec<Vec<String>> = Vec::new();
                            parts.push(body);
                            parts.push(redo);
                            if is_loop_fallthrough_valid(l, g, parts.as_slice()) {
                                proof {
                                    assert(loop_candidate_ok(*l, *g, p, k as int, parts@));
                                }
                                out.push((k, parts));
                                found = true;
                            } else {
                                proof {
                                    assert forall|c: Seq<Vec<String>>| !#[trigger] loop_candidate_ok(*l, *g, p, k as int, c) by {
                                        if loop_candidate_ok(*l, *g, p, k as int, c) {
                                            let i2 = choose|i2: int| #[trigger] decides(*l, *g, p, k as int, i2) && c.len() == 2 && c[0]@ == p[i2]@
                                                && c[1]@ == flatten_parts(p.remove(i2)) && c[0]@.len() > 0 && c[1]@.len() > 0
                                                && loop_fallthrough_valid(*l, *g, c);
                                            lemma_body_part_unique(*l, t@, p, i2, bi as int);
                                            lemma_loop_valid_by_views(*l, *g, c, parts@);
                                        }
                                    }
                                }
                            }
                        } else {
                            proof {
                                assert forall|c: Seq<Vec<String>>| !#[trigger] loop_candidate_ok(*l, *g, p, k as int, c) by {
                                    if loop_candidate_ok(*l, *g, p, k as int, c) {
                                        let i2 = choose|i2: int| #[trigger] decides(*l, *g, p, k as int, i2) && c.len() == 2 && c[0]@ == p[i2]@
                                            && c[1]@ == flatten_parts(p.remove(i2)) && c[0]@.len() > 0 && c[1]@.len() > 0
                                            && loop_fallthrough_valid(*l, *g, c);
                                        lemma_body_part_unique(*l, t@, p, i2, bi as int);
                                    }
                                }
                            }
                        }
                    }
                },
            }
        }
        proof {
            if !found {
                assert(out@ == before);
                assert forall|c: Seq<Vec<String>>| !#[trigger] loop_candidate_ok(*l, *g, p, k as int, c) by {
                    if loop_candidate_ok(*l, *g, p, k as int, c) {
                        let i2 = choose|i2: int| #[trigger] decides(*l, *g, p, k as int, i2) && c.len() == 2 && c[0]@ == p[i2]@
                            && c[1]@ == flatten_parts(p.remove(i2)) && c[0]@.len() > 0 && c[1]@.len() > 0
                            && loop_fallthrough_valid(*l, *g, c);
                        assert(body_part(*l, t@, p, i2));
                    }
                }
            } else {
                assert(out@ == before.push(out@[out@.len() - 1]));
                assert(out@[out@.len() - 1].0 == k);
            }
            assert forall|k2: int| 0 <= k2 < k + 1 && (forall|m: int| 0 <= m < out@.len() ==> (#[trigger] out@[m]).0 != k2)
                implies !has_loop_candidate(*l, *g, p, k2) by {
                if k2 < k {
                    assert forall|m: int| 0 <= m < before.len() implies (#[trigger] before[m]).0 != k2 by {
                        assert(out@[m] == before[m]);
                    }
                } else if found {
                    assert(out@[out@.len() - 1].0 != k2);
                }
            }
        }
        k += 1;
    }
    out
}

// ---------------------------------------------------------------------------
// Labels of a two-way clustering.

/// All labels are the same (there are at most one distinct label).
pub open spec fn uniform(labels: Seq<usize>) -> bool {
    forall|i: int, j: int| 0 <= i < labels.len() && 0 <= j < labels.len() ==> labels[i] == labels[j]
}

/// Position `i` carries label 0.
pub open spec fn label_zero(labels: Seq<usize>, i: int) -> bool {
    0 <= i < labels.len() && labels[i] == 0
}

/// The activities of the parts whose label is 0 (`zero`), or of the others, in order.
pub open spec fn labelled_parts(p: Seq<Vec<String>>, labels: Seq<usize>, zero: bool) -> Seq<String>
    decreases p.len(),
{
    if p.len() == 0 {
        Seq::empty()
    } else {
        let rest = labelled_parts(p.drop_last(), labels, zero);
        if label_zero(labels, p.len() - 1) == zero { rest + p.last()@ } else { rest }
    }
}

/// The activities at the positions whose label is 0 (`zero`), or at the others, in order.
pub open spec fn labelled_items(a: Seq<String>, labels: Seq<usize>, zero: bool) -> Seq<String>
    decreases a.len(),
{
    if a.len() == 0 {
        Seq::empty()
    } else {
        let rest = labelled_items(a.drop_last(), labels, zero);
        if label_zero(labels, a.len() - 1) == zero { rest.push(a.last()) } else { rest }
    }
}

/// Whether the labels are uniform.
fn labels_uniform(labels: &Vec<usize>) -> (r: bool)
    ensures
        r == uniform(labels@),
{
    if labels.len() == 0 {
        return true;
    }
    let first = labels[0];
    let mut i: usize = 1;
    while i < labels.len()
        invariant
            1 <= i <= labels@.len(),
            first == labels@[0],
            forall|k: int| 0 <= k < i ==> labels@[k] == first,
        decreases labels@.len() - i,
    {
        if labels[i] != first {
            return false;
        }
        i += 1;
    }
    true
}

proof fn lemma_take_step_parts(p: Seq<Vec<String>>, k: int)
    requires
        0 <= k < p.len(),
    ensures
        p.take(k + 1).drop_last() == p.take(k),
        p.take(k + 1).last() == p[k],
{
    assert(p.take(k + 1).drop_last() =~= p.take(k));
}

proof fn lemma_take_step_items(a: Seq<String>, k: int)
    requires
        0 <= k < a.len(),
    ensures
        a.take(k + 1).drop_last() == a.take(k),
        a.take(k + 1).last() == a[k],
{
    assert(a.take(k + 1).drop_last() =~= a.take(k));
}

/// The activities of the parts by label: first those labelled 0, then the others.
fn split_parts_by_label(partition: &Vec<Vec<String>>, labels: &Vec<usize>) -> (r: (Vec<String>, Vec<String>))
    ensures
        r.0@ == labelled_parts(partition@, labels@, true),
        r.1@ == labelled_parts(partition@, labels@, false),
{
    let mut one: Vec<String> = Vec::new();
    let mut two: Vec<String> = Vec::new();
    let mut i: usize = 0;
    while i < partition.len()
        invariant
            0 <= i <= partition@.len(),
            one@ == labelled_parts(partition@.take(i as int), labels@, true),
            two@ == labelled_parts(partition@.take(i as int), labels@, false),
        decreases partition@.len() - i,
    {
        proof { lemma_take_step_parts(partition@, i as int); }
        if i < labels.len() && labels[i] == 0 {
            one = concat_strings(one.as_slice(), partition[i].as_slice());
        } else {
            two = concat_strings(two.as_slice(), partition[i].as_slice());
        }
        i += 1;
    }
    assert(partition@.take(i as int) =~= partition@);
    (one, two)
}

/// The activities by label: first those labelled 0, then the others.
fn split_items_by_label(alphabet: &Vec<String>, labels: &Vec<usize>) -> (r: (Vec<String>, Vec<String>))
    ensures
        r.0@ == labelled_items(alphabet@, labels@, true),
        r.1@ == labelled_items(alphabet@, labels@, false),
{
    let mut one: Vec<String> = Vec::new();
    let mut two: Vec<String> = Vec::new();
    let mut i: usize = 0;
    while i < alphabet.len()
        invariant
            0 <= i <= alphabet@.len(),
            one@ == labelled_items(alphabet@.take(i as int), labels@, true),
            two@ == labelled_items(alphabet@.take(i as int), labels@, false),
        decreases alphabet@.len() - i,
    {
        proof { lemma_take_step_items(alphabet@, i as int); }
        if i < labels.len() && labels[i] == 0 {
            one.push(alphabet[i].clone());
        } else {
            two.push(alphabet[i].clone());
        }
        i += 1;
    }
    assert(alphabet@.take(i as int) =~= alphabet@);
    (one, two)
}

// ---------------------------------------------------------------------------
// Concurrent fall-through.

/// The concurrent fall-through for a two-way clustering of the alphabet (one
/// label per activity): with one label only, the first activity against the
/// rest (nothing for an empty alphabet); otherwise the activities labelled 0
/// against the others.
pub fn concurrent_fallthrough_split(local_data: &LocalData, global_data: &GlobalData, labels: &Vec<usize>) -> (r: Option<Vec<Vec<String>>>)
    ensures
        uniform(labels@) ==> match r {
            Some(q) => local_data.alphabet@.len() > 0 && q@.len() == 2 && q@[0]@ == seq![local_data.alphabet@[0]]
                && q@[1]@ == local_data.alphabet@.skip(1),
            None => local_data.alphabet@.len() == 0,
        },
        !uniform(labels@) ==> match r {
            Some(q) => q@.len() == 2 && q@[0]@ == labelled_items(local_data.alphabet@, labels@, true)
                && q@[1]@ == labelled_items(local_data.alphabet@, labels@, false),
            None => false,
        },
{
    let alphabet = &local_data.alphabet;
    let (part_one, part_two) = if labels_uniform(labels) {
        if alphabet.len() == 0 {
            return None;
        }
        let mut first: Vec<String> = Vec::new();
        first.push(alphabet[0].clone());
        let mut rest: Vec<String> = Vec::new();
        let mut i: usize = 1;
        while i < alphabet.len()
            invariant
                1 <= i <= alphabet@.len(),
                rest@ == alphabet@.subrange(1, i as int),
            decreases alphabet@.len() - i,
        {
            rest.push(alphabet[i].clone());
            assert(rest@ =~= alphabet@.subrange(1, i + 1));
            i += 1;
        }
        assert(first@ =~= seq![alphabet@[0]]);
        assert(rest@ =~= alphabet@.skip(1));
        (first, rest)
    } else {
        split_items_by_label(alphabet, labels)
    };
    let mut parts: Vec<Vec<String>> = Vec::new();
    parts.push(part_one);
    parts.push(part_two);
    if !is_concurrent_fallthrough_valid(local_data, global_data, parts.as_slice()) {
        return None;
    }
    Some(parts)
}

// ---------------------------------------------------------------------------
// Exclusive fall-through.

/// Some non-divergent type of `a` and `b` (within the alphabet) has an edge
/// between them, either way.
pub open spec fn excl_fall_pair(l: LocalData, g: GlobalData, a: Seq<char>, b: Seq<char>) -> bool {
    exists|t: Seq<char>| #[trigger] is_non_divergent_type(g, a, b, l.alphabet@, t) && (l.df(t, a, b) > 0 || l.df(t, b, a) > 0)
}

/// The pairs `i < j` of alphabet positions whose activities `excl_fall_pair` joins.
pub open spec fn excl_fall_edges(l: LocalData, g: GlobalData) -> spec_fn(int, int) -> bool {
    |i: int, j: int| 0 <= i < j < l.alphabet@.len() && excl_fall_pair(l, g, l.alphabet@[i]@, l.alphabet@[j]@)
}

/// Whether `excl_fall_pair` holds for `a` and `b`.
fn check_excl_fall_pair(l: &LocalData, g: &GlobalData, a: &String, b: &String) -> (r: bool)
    requires
        l.wf(),
        g.wf(),
    ensures
        r == excl_fall_pair(*l, *g, a@, b@),
{
    let nd = get_non_divergent_types(a, b, l.alphabet.as_slice(), g);
    let mut k: usize = 0;
    while k < nd.len()
        invariant
            0 <= k <= nd@.len(),
            l.wf(),
            g.wf(),
            forall|t: Seq<char>| #[trigger] seq_has(nd@, t) <==> is_non_divergent_type(*g, a@, b@, l.alphabet@, t),
            forall|q: int| 0 <= q < k ==> !(l.df((#[trigger] nd@[q])@, a@, b@) > 0 || l.df(nd@[q]@, b@, a@) > 0),
        decreases nd@.len() - k,
    {
        let t = &nd[k];
        if df_count(l, t, a, b) > 0 || df_count(l, t, b, a) > 0 {
            proof {
                assert(seq_has(nd@, t@));
            }
            return true;
        }
        k += 1;
    }
    proof {
        assert forall|t: Seq<char>| #[trigger] is_non_divergent_type(*g, a@, b@, l.alphabet@, t)
            implies !(l.df(t, a@, b@) > 0 || l.df(t, b@, a@) > 0) by {
            assert(seq_has(nd@, t));
            let q = choose|q: int| 0 <= q < nd@.len() && (#[trigger] nd@[q])@ == t;
        }
    }
    false
}

/// The grouping of the exclusive fall-through: the connected components of the
/// pairs of `excl_fall_pair`.
pub fn exclusive_fallthrough_partition(local_data: &LocalData, global_data: &GlobalData) -> (r: Vec<Vec<String>>)
    requires
        local_data.wf(),
        global_data.wf(),
    ensures
        components_listing(r@, excl_fall_edges(*local_data, *global_data), local_data.alphabet@),
{
    let l = local_data;
    let g = global_data;
    let ghost e = excl_fall_edges(*l, *g);
    let n = l.alphabet.len();
    let mut adj: Vec<Vec<bool>> = Vec::new();
    let mut i: usize = 0;
    while i < n
        invariant
            0 <= i <= n,
            n == l.alphabet@.len(),
            l.wf(),
            g.wf(),
            e == excl_fall_edges(*l, *g),
            adj@.len() == i,
            forall|a: int| 0 <= a < i ==> (#[trigger] adj@[a])@.len() == n,
            forall|a: int, b: int| 0 <= a < i && 0 <= b < n ==> (adj@[a]@[b] <==> e(a, b)),
        decreases n - i,
    {
        let mut row: Vec<bool> = Vec::new();
        let mut j: usize = 0;
        while j < n
            invariant
                0 <= i < n,
                0 <= j <= n,
                n == l.alphabet@.len(),
                l.wf(),
                g.wf(),
                e == excl_fall_edges(*l, *g),
                row@.len() == j,
                forall|b: int| 0 <= b < j ==> (row@[b] <==> e(i as int, b)),
            decreases n - j,
        {
            let linked = j > i && check_excl_fall_pair(l, g, &l.alphabet[i], &l.alphabet[j]);
            row.push(linked);
            j += 1;
        }
        adj.push(row);
        i += 1;
    }
    proof {
        assert(square(adj@));
        assert(marked_edges(adj@) =~= e);
    }
    connected_components_by_predicate(&l.alphabet, &adj)
}

/// Validity of an exclusive fall-through of two parts depends on their activities only.
proof fn lemma_exclusive_valid_by_views(l: LocalData, g: GlobalData, c1: Seq<Vec<String>>, c2: Seq<Vec<String>>)
    requires
        c1.len() == 2,
        c2.len() == 2,
        c1[0]@ == c2[0]@,
        c1[1]@ == c2[1]@,
    ensures
        exclusive_fallthrough_valid(l, g, c1) == exclusive_fallthrough_valid(l, g, c2),
{
    assert forall|x: Seq<char>| #[trigger] in_partition(c1, x) == in_partition(c2, x) by {
        if in_partition(c1, x) {
            let i = choose|i: int| 0 <= i < c1.len() && seq_has((#[trigger] c1[i])@, x);
            assert(seq_has(c2[i]@, x));
        }
        if in_partition(c2, x) {
            let i = choose|i: int| 0 <= i < c2.len() && seq_has((#[trigger] c2[i])@, x);
            assert(seq_has(c1[i]@, x));
        }
    }
    if covers_alphabet(c1, l.alphabet@) {
        assert forall|x: Seq<char>| #[trigger] in_partition(c2, x) <==> seq_has(l.alphabet@, x) by {
            assert(in_partition(c1, x) == in_partition(c2, x));
        }
    }
    if covers_alphabet(c2, l.alphabet@) {
        assert forall|x: Seq<char>| #[trigger] in_partition(c1, x) <==> seq_has(l.alphabet@, x) by {
            assert(in_partition(c1, x) == in_partition(c2, x));
        }
    }
    if exclusive_fallthrough_valid(l, g, c1) {
        assert(exclusive_pair_ok(l, g, c1[0]@, c1[1]@));
    }
    if exclusive_fallthrough_valid(l, g, c2) {
        assert(exclusive_pair_ok(l, g, c2[0]@, c2[1]@));
    }
}

/// The exclusive fall-through for a two-way clustering of the parts (one label
/// per part): nothing with one label only; otherwise the activities of the parts
/// labelled 0 against the others, if that is a valid exclusive fall-through.
pub fn exclusive_fallthrough_split(local_data: &LocalData, global_data: &GlobalData, partition: &Vec<Vec<String>>, labels: &Vec<usize>) -> (r: Option<Vec<Vec<String>>>)
    requires
        local_data.wf(),
        global_data.wf(),
    ensures
        match r {
            Some(q) => !uniform(labels@) && q@.len() == 2 && q@[0]@ == labelled_parts(partition@, labels@, true)
                && q@[1]@ == labelled_parts(partition@, labels@, false) && exclusive_fallthrough_valid(*local_data, *global_data, q@),
            None => uniform(labels@) || forall|q: Seq<Vec<String>>| q.len() == 2 && q[0]@ == labelled_parts(partition@, labels@, true)
                && q[1]@ == labelled_parts(partition@, labels@, false) ==> !#[trigger] exclusive_fallthrough_valid(*local_data, *global_data, q),
        },
{
    if labels_uniform(labels) {
        return None;
    }
    let (part_one, part_two) = split_parts_by_label(partition, labels);
    let mut parts: Vec<Vec<String>> = Vec::new();
    parts.push(part_one);
    parts.push(part_two);
    if !is_exclusive_fallthrough_valid(local_data, global_data, parts.as_slice()) {
        proof {
            assert forall|q: Seq<Vec<String>>| q.len() == 2 && q[0]@ == labelled_parts(partition@, labels@, true)
                && q[1]@ == labelled_parts(partition@, labels@, false) implies !#[trigger] exclusive_fallthrough_valid(*local_data, *global_data, q) by {
                lemma_exclusive_valid_by_views(*local_data, *global_data, q, parts@);
            }
        }
        return None;
    }
    Some(parts)
}

// ---------------------------------------------------------------------------
// Sequence fall-through.

/// Some non-divergent type of `a` and `b` (within the alphabet) has a closure in
/// which each of them reaches the other.
pub open spec fn bidirectional(l: LocalData, g: GlobalData, a: Seq<char>, b: Seq<char>) -> bool {
    exists|t: Seq<char>| #[trigger] is_non_divergent_type(g, a, b, l.alphabet@, t) && l.reaches(t, a, b) && l.reaches(t, b, a)
}

/// The pairs `i < j` of alphabet positions that the first grouping joins.
pub open spec fn seq_fall_edges1(l: LocalData, g: GlobalData) -> spec_fn(int, int) -> bool {
    |i: int, j: int| 0 <= i < j < l.alphabet@.len() && bidirectional(l, g, l.alphabet@[i]@, l.alphabet@[j]@)
}

/// `k` is the last part that holds `x`.
pub open spec fn last_part(p: Seq<Vec<String>>, x: Seq<char>, k: int) -> bool {
    0 <= k < p.len() && seq_has(p[k]@, x) && forall|m: int| k < m < p.len() ==> !seq_has(#[trigger] p[m]@, x)
}

/// The pairs `i < j` that the second grouping joins, given the parts `p` of the
/// first: those of the first, and those whose (last) parts reach each other.
pub open spec fn seq_fall_edges2(l: LocalData, g: GlobalData, p: Seq<Vec<String>>) -> spec_fn(int, int) -> bool {
    |i: int, j: int| 0 <= i < j < l.alphabet@.len() && (bidirectional(l, g, l.alphabet@[j]@, l.alphabet@[i]@)
        || exists|pi: int, pj: int| #[trigger] last_part(p, l.alphabet@[i]@, pi) && #[trigger] last_part(p, l.alphabet@[j]@, pj)
            && part_reach(l, g, p, pi, pj) && part_reach(l, g, p, pj, pi))
}

/// Candidate `c` splits the ordered parts `o` before part `s`: the parts before
/// against the parts from `s` on, a valid sequence fall-through.
pub open spec fn seq_split_ok(l: LocalData, g: GlobalData, o: Seq<Vec<String>>, s: int, c: Seq<Vec<String>>) -> bool {
    &&& 1 <= s < o.len()
    &&& c.len() == 2
    &&& c[0]@ == segment(o, 0, s - 1)
    &&& c[1]@ == segment(o, s, o.len() - 1)
    &&& sequence_fallthrough_valid(l, g, c)
}

/// Splitting the ordered parts `o` before part `s` gives a candidate.
pub open spec fn has_seq_split(l: LocalData, g: GlobalData, o: Seq<Vec<String>>, s: int) -> bool {
    exists|c: Seq<Vec<String>>| #[trigger] seq_split_ok(l, g, o, s, c)
}

/// `r` lists, by increasing split position, the candidates of all positions that give one.
pub open spec fn split_candidates(l: LocalData, g: GlobalData, o: Seq<Vec<String>>, r: Seq<(usize, Vec<Vec<String>>)>) -> bool {
    &&& forall|m1: int, m2: int| 0 <= m1 < m2 < r.len() ==> (#[trigger] r[m1]).0 < (#[trigger] r[m2]).0
    &&& forall|m: int| 0 <= m < r.len() ==> #[trigger] seq_split_ok(l, g, o, r[m].0 as int, r[m].1@)
    &&& forall|s: int| 1 <= s < o.len() && (forall|m: int| 0 <= m < r.len() ==> (#[trigger] r[m]).0 != s) ==> !has_seq_split(l, g, o, s)
}

/// What the sequence fall-through search gives: nothing for fewer than two
/// activities; else the activities are grouped by `seq_fall_edges1`, and, unless
/// that leaves one part, regrouped by `seq_fall_edges2`; unless that leaves one
/// part, the parts are put in topological order and, where they cover the
/// alphabet, every split of the order that is a valid fall-through is a candidate.
pub open spec fn sequence_fallthrough_outcome(l: LocalData, g: GlobalData, r: Seq<(usize, Vec<Vec<String>>)>) -> bool {
    if l.alphabet@.len() <= 1 {
        r.len() == 0
    } else {
        exists|p1: Seq<Vec<String>>| #[trigger] components_listing(p1, seq_fall_edges1(l, g), l.alphabet@) && if p1.len() == 1 {
            r.len() == 0
        } else {
            exists|p2: Seq<Vec<String>>| #[trigger] components_listing(p2, seq_fall_edges2(l, g, p1), l.alphabet@) && if p2.len() == 1 {
                r.len() == 0
            } else {
                exists|o: Seq<Vec<String>>| #[trigger] topo_ordered(l, g, p2, o) && if !covers_alphabet(o, l.alphabet@) {
                    r.len() == 0
                } else {
                    split_candidates(l, g, o, r)
                }
            }
        }
    }
}

/// Whether `bidirectional` holds for `a` and `b`.
fn check_bidirectional(l: &LocalData, g: &GlobalData, a: &String, b: &String) -> (r: bool)
    requires
        l.wf(),
        g.wf(),
    ensures
        r == bidirectional(*l, *g, a@, b@),
{
    let nd = get_non_divergent_types(a, b, l.alphabet.as_slice(), g);
    let mut k: usize = 0;
    while k < nd.len()
        invariant
            0 <= k <= nd@.len(),
            l.wf(),
            g.wf(),
            forall|t: Seq<char>| #[trigger] seq_has(nd@, t) <==> is_non_divergent_type(*g, a@, b@, l.alphabet@, t),
            forall|q: int| 0 <= q < k ==> !(l.reaches((#[trigger] nd@[q])@, a@, b@) && l.reaches(nd@[q]@, b@, a@)),
        decreases nd@.len() - k,
    {
        let t = &nd[k];
        let both = match lookup_clos(&l.clos, t) {
            Some(pairs) => contains_pair(pairs, a, b) && contains_pair(pairs, b, a),
            None => false,
        };
        if both {
            proof {
                assert(seq_has(nd@, t@));
            }
            return true;
        }
        k += 1;
    }
    proof {
        assert forall|t: Seq<char>| #[trigger] is_non_divergent_type(*g, a@, b@, l.alphabet@, t)
            implies !(l.reaches(t, a@, b@) && l.reaches(t, b@, a@)) by {
            assert(seq_has(nd@, t));
            let q = choose|q: int| 0 <= q < nd@.len() && (#[trigger] nd@[q])@ == t;
        }
    }
    false
}

/// The last part that holds `act`, if any.
fn last_part_index(partition: &Vec<Vec<String>>, act: &String) -> (r: Option<usize>)
    ensures
        r matches Some(k) ==> last_part(partition@, act@, k as int),
        r is None ==> forall|k: int| 0 <= k < partition@.len() ==> !seq_has(#[trigger] partition@[k]@, act@),
{
    let mut found: Option<usize> = None;
    let mut k: usize = 0;
    while k < partition.len()
        invariant
            0 <= k <= partition@.len(),
            found matches Some(x) ==> x < k && seq_has(partition@[x as int]@, act@)
                && forall|m: int| x < m < k ==> !seq_has(#[trigger] partition@[m]@, act@),
            found is None ==> forall|m: int| 0 <= m < k ==> !seq_has(#[trigger] partition@[m]@, act@),
        decreases partition@.len() - k,
    {
        if contains_string(&partition[k], act) {
            found = Some(k);
        }
        k += 1;
    }
    found
}

/// Validity of a sequence fall-through of two parts depends on their activities only.
proof fn lemma_sequence_valid_by_views(l: LocalData, g: GlobalData, c1: Seq<Vec<String>>, c2: Seq<Vec<String>>)
    requires
        c1.len() == 2,
        c2.len() == 2,
        c1[0]@ == c2[0]@,
        c1[1]@ == c2[1]@,
    ensures
        sequence_fallthrough_valid(l, g, c1) == sequence_fallthrough_valid(l, g, c2),
{
    assert forall|x: Seq<char>| #[trigger] in_partition(c1, x) == in_partition(c2, x) by {
        if in_partition(c1, x) {
            let i = choose|i: int| 0 <= i < c1.len() && seq_has((#[trigger] c1[i])@, x);
            assert(seq_has(c2[i]@, x));
        }
        if in_partition(c2, x) {
            let i = choose|i: int| 0 <= i < c2.len() && seq_has((#[trigger] c2[i])@, x);
            assert(seq_has(c1[i]@, x));
        }
    }
    if covers_alphabet(c1, l.alphabet@) {
        assert forall|x: Seq<char>| #[trigger] in_partition(c2, x) <==> seq_has(l.alphabet@, x) by {
            assert(in_partition(c1, x) == in_partition(c2, x));
        }
    }
    if covers_alphabet(c2, l.alphabet@) {
        assert forall|x: Seq<char>| #[trigger] in_partition(c1, x) <==> seq_has(l.alphabet@, x) by {
            assert(in_partition(c1, x) == in_partition(c2, x));
        }
    }
    assert forall|c: Seq<Vec<String>>| c.len() == 2 implies #[trigger] segment(c, 0, 1) == c[0]@ + c[1]@ by {
        let s = c.subrange(0, 2);
        assert(s.drop_last() =~= c.subrange(0, 1));
        let s1 = c.subrange(0, 1);
        assert(s1.drop_last() =~= Seq::<Vec<String>>::empty());
        assert(flatten_parts(s1.drop_last()) =~= Seq::<String>::empty());
        assert(s1.last() == c[0]);
        assert(Seq::<String>::empty() + c[0]@ =~= c[0]@);
        assert(flatten_parts(s1) =~= c[0]@);
        assert(s.last() == c[1]);
    }
    assert(segment(c1, 0, 1) == segment(c2, 0, 1));
    if sequence_fallthrough_valid(l, g, c1) {
        assert(sequence_pair_ok(l, g, c1, 0, 1));
        assert(sequence_pair_ok(l, g, c2, 0, 1));
    }
    if sequence_fallthrough_valid(l, g, c2) {
        assert(sequence_pair_ok(l, g, c2, 0, 1));
        assert(sequence_pair_ok(l, g, c1, 0, 1));
    }
}

/// The candidate splits of the ordered parts `o`.
fn split_candidates_of(l: &LocalData, g: &GlobalData, o: &Vec<Vec<String>>) -> (r: Vec<(usize, Vec<Vec<String>>)>)
    requires
        l.wf(),
        g.wf(),
    ensures
        split_candidates(*l, *g, o@, r@),
{
    let mut out: Vec<(usize, Vec<Vec<String>>)> = Vec::new();
    let n = o.len();
    let mut split: usize = 1;
    while split < n
        invariant
            1 <= split,
            n == o@.len(),
            split <= n || n == 0,
            l.wf(),
            g.wf(),
            forall|m1: int, m2: int| 0 <= m1 < m2 < out@.len() ==> (#[trigger] out@[m1]).0 < (#[trigger] out@[m2]).0,
            forall|m: int| 0 <= m < out@.len() ==> (#[trigger] out@[m]).0 < split && seq_split_ok(*l, *g, o@, out@[m].0 as int, out@[m].1@),
            forall|s: int| 1 <= s < split && (forall|m: int| 0 <= m < out@.len() ==> (#[trigger] out@[m]).0 != s) ==> !has_seq_split(*l, *g, o@, s),
        decreases n - split,
    {
        let ghost before = out@;
        let part_one = flatten_range(o.as_slice(), 0, split - 1);
        let part_two = flatten_range(o.as_slice(), split, n - 1);
        let mut parts: Vec<Vec<String>> = Vec::new();
        parts.push(part_one);
        parts.push(part_two);
        let valid = is_sequence_fallthrough_valid(l, g, parts.as_slice());
        if valid {
            proof {
                assert(seq_split_ok(*l, *g, o@, split as int, parts@));
            }
            out.push((split, parts));
        }
        proof {
            if !valid {
                assert forall|c: Seq<Vec<String>>| !#[trigger] seq_split_ok(*l, *g, o@, split as int, c) by {
                    if seq_split_ok(*l, *g, o@, split as int, c) {
                        lemma_sequence_valid_by_views(*l, *g, c, parts@);
                    }
                }
            } else {
                assert(out@[out@.len() - 1].0 == split);
            }
            assert forall|s: int| 1 <= s < split + 1 && (forall|m: int| 0 <= m < out@.len() ==> (#[trigger] out@[m]).0 != s)
                implies !has_seq_split(*l, *g, o@, s) by {
                if s < split {
                    assert forall|m: int| 0 <= m < before.len() implies (#[trigger] before[m]).0 != s by {
                        assert(out@[m] == before[m]);
                    }
                } else if valid {
                    assert(out@[out@.len() - 1].0 != s);
                }
            }
        }
        split += 1;
    }
    proof {
        if n == 0 {
            assert forall|s: int| 1 <= s < o@.len() implies !has_seq_split(*l, *g, o@, s) by {}
        }
    }
    out
}

/// The sequence fall-through candidates (see `sequence_fallthrough_outcome`),
/// each with its split position.
pub fn sequence_fallthrough_candidates(local_data: &LocalData, global_data: &GlobalData) -> (r: Vec<(usize, Vec<Vec<String>>)>)
    requires
        local_data.wf(),
        global_data.wf(),
    ensures
        sequence_fallthrough_outcome(*local_data, *global_data, r@),
{
    let l = local_data;
    let g = global_data;
    let n = l.alphabet.len();
    if n <= 1 {
        return Vec::new();
    }
    // first grouping
    let ghost e1 = seq_fall_edges1(*l, *g);
    let mut adj: Vec<Vec<bool>> = Vec::new();
    let mut i: usize = 0;
    while i < n
        invariant
            0 <= i <= n,
            n == l.alphabet@.len(),
            l.wf(),
            g.wf(),
            e1 == seq_fall_edges1(*l, *g),
            adj@.len() == i,
            forall|a: int| 0 <= a < i ==> (#[trigger] adj@[a])@.len() == n,
            forall|a: int, b: int| 0 <= a < i && 0 <= b < n ==> (adj@[a]@[b] <==> e1(a, b)),
        decreases n - i,
    {
        let mut row: Vec<bool> = Vec::new();
        let mut j: usize = 0;
        while j < n
            invariant
                0 <= i < n,
                0 <= j <= n,
                n == l.alphabet@.len(),
                l.wf(),
                g.wf(),
                e1 == seq_fall_edges1(*l, *g),
                row@.len() == j,
                forall|b: int| 0 <= b < j ==> (row@[b] <==> e1(i as int, b)),
            decreases n - j,
        {
            let linked = j > i && check_bidirectional(l, g, &l.alphabet[i], &l.alphabet[j]);
            row.push(linked);
            j += 1;
        }
        adj.push(row);
        i += 1;
    }
    proof {
        assert(square(adj@));
        assert(marked_edges(adj@) =~= e1);
    }
    let partition = connected_components_by_predicate(&l.alphabet, &adj);
    let ghost p1 = partition@;
    proof {
        lemma_listing_holds_alphabet(p1, e1, l.alphabet@);
    }
    if partition.len() == 1 {
        return Vec::new();
    }
    // second grouping
    let follows = partition_closure(l, g, &partition);
    let ghost e2 = seq_fall_edges2(*l, *g, p1);
    let mut adj2: Vec<Vec<bool>> = Vec::new();
    let mut i: usize = 0;
    while i < n
        invariant
            0 <= i <= n,
            n == l.alphabet@.len(),
            l.wf(),
            g.wf(),
            p1 == partition@,
            holds_alphabet(p1, l.alphabet@),
            follows@.len() == p1.len(),
            square(follows@),
            forall|x: int, y: int| 0 <= x < p1.len() && 0 <= y < p1.len() ==> (follows@[x]@[y] <==> part_reach(*l, *g, p1, x, y)),
            e2 == seq_fall_edges2(*l, *g, p1),
            adj2@.len() == i,
            forall|a: int| 0 <= a < i ==> (#[trigger] adj2@[a])@.len() == n,
            forall|a: int, b: int| 0 <= a < i && 0 <= b < n ==> (adj2@[a]@[b] <==> e2(a, b)),
        decreases n - i,
    {
        proof {
            assert(crate::ocim::auxiliary_methods::in_partition(p1, l.alphabet@[i as int]@));
        }
        let pi = match last_part_index(&partition, &l.alphabet[i]) {
            Some(k) => k,
            None => 0,
        };
        let mut row: Vec<bool> = Vec::new();
        let mut j: usize = 0;
        while j < n
            invariant
                0 <= i < n,
                0 <= j <= n,
                n == l.alphabet@.len(),
                l.wf(),
                g.wf(),
                p1 == partition@,
                holds_alphabet(p1, l.alphabet@),
                last_part(p1, l.alphabet@[i as int]@, pi as int),
                follows@.len() == p1.len(),
                square(follows@),
                forall|x: int, y: int| 0 <= x < p1.len() && 0 <= y < p1.len() ==> (follows@[x]@[y] <==> part_reach(*l, *g, p1, x, y)),
                e2 == seq_fall_edges2(*l, *g, p1),
                row@.len() == j,
                forall|b: int| 0 <= b < j ==> (row@[b] <==> e2(i as int, b)),
            decreases n - j,
        {
            let mut linked = false;
            if j > i {
                if check_bidirectional(l, g, &l.alphabet[j], &l.alphabet[i]) {
                    linked = true;
                } else {
                    proof {
                        assert(crate::ocim::auxiliary_methods::in_partition(p1, l.alphabet@[j as int]@));
                    }
                    let pj = match last_part_index(&partition, &l.alphabet[j]) {
                        Some(k) => k,
                        None => 0,
                    };
                    linked = follows[pi][pj] && follows[pj][pi];
                    proof {
                        let ai = l.alphabet@[i as int]@;
                        let aj = l.alphabet@[j as int]@;
                        assert forall|x: int, y: int| #[trigger] last_part(p1, ai, x) && #[trigger] last_part(p1, aj, y)
                            implies x == pi && y == pj by {
                            if x < pi { assert(!seq_has(p1[pi as int]@, ai)); }
                            if pi < x { assert(!seq_has(p1[x]@, ai)); }
                            if y < pj { assert(!seq_has(p1[pj as int]@, aj)); }
                            if pj < y { assert(!seq_has(p1[y]@, aj)); }
                        }
                        if linked {
                            assert(last_part(p1, ai, pi as int) && last_part(p1, aj, pj as int));
                        }
                    }
                }
            }
            row.push(linked);
            j += 1;
        }
        adj2.push(row);
        i += 1;
    }
    proof {
        assert(square(adj2@));
        assert(marked_edges(adj2@) =~= e2);
    }
    let partition2 = connected_components_by_predicate(&l.alphabet, &adj2);
    let ghost p2 = partition2@;
    if partition2.len() == 1 {
        return Vec::new();
    }
    let ordered = topo_order_partitions(&partition2, l, g);
    if !partitions_cover_alphabet(ordered.as_slice(), l.alphabet.as_slice()) {
        return Vec::new();
    }
    split_candidates_of(l, g, &ordered)
}

} // verus!
