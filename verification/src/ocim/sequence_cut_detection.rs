//! Detection of a sequence cut: activities are grouped in three rounds of
//! connected components (shared closure behaviour, mutual reachability of the
//! parts, divergent types without edges both ways), the parts are put in
//! topological order, parts that reach each other are merged, and the result
//! must satisfy the sequence cut definition.
use vstd::prelude::*;
use petgraph::algo::toposort;
use petgraph::graph::{Graph, NodeIndex};
use petgraph::Directed;
use crate::ocim::auxiliary_methods::{get_divergent_types, get_non_divergent_types, is_divergent_type, is_non_divergent_type};
use crate::ocim::common_data::{GlobalData, LocalData};
use crate::ocim::components::{
    arcs, group_indices, is_component_grouping, marked_edges, reach_from, reaches, square, union_components,
};
use crate::ocim::concurrent_cut_detection::{parts_listing, parts_of_groups};
use crate::ocim::auxiliary_methods::in_partition;
use crate::ocim::sequence_cut::{is_sequence_cut_valid, sequence_cut_valid};
use crate::ocim::cut_helpers::{concat_strings, flatten_range, segment};
use crate::ocim::model::{contains_pair, has_edge, lookup_clos, lookup_dfg, seq_has};
use crate::text::{sorted_strict, union_into};
use crate::permutation::{is_permutation, lemma_permutation_onto};

verus! {

// ---------------------------------------------------------------------------
// Conditions between two activities and between two parts.

/// The context of two activities alone.
pub open spec fn pair_ctx(a: String, b: String) -> Seq<String> {
    seq![a, b]
}

/// Some non-divergent object type of `a` and `b` (in the context of the two) has
/// a closure in which `a` and `b` follow each other both ways or neither way.
pub open spec fn seq_related(l: LocalData, g: GlobalData, a: String, b: String) -> bool {
    exists|t: Seq<char>| #[trigger] is_non_divergent_type(g, a@, b@, pair_ctx(a, b), t)
        && l.has_clos(t) && (l.reaches(t, a@, b@) == l.reaches(t, b@, a@))
}

/// Some activity of `pi` is followed, in the closure of a non-divergent object
/// type (in the context of both parts), by some activity of `pj`.
pub open spec fn part_follows(l: LocalData, g: GlobalData, pi: Seq<String>, pj: Seq<String>) -> bool {
    exists|ka: int, kb: int, t: Seq<char>| 0 <= ka < pi.len() && 0 <= kb < pj.len()
        && #[trigger] is_non_divergent_type(g, pi[ka]@, pj[kb]@, pi + pj, t) && l.reaches(t, pi[ka]@, pj[kb]@)
}

/// The follows relation between distinct parts, as arcs.
pub open spec fn part_arcs(l: LocalData, g: GlobalData, p: Seq<Vec<String>>) -> spec_fn(int, int) -> bool {
    |i: int, j: int| 0 <= i < p.len() && 0 <= j < p.len() && i != j && part_follows(l, g, p[i]@, p[j]@)
}

/// Part `j` is reachable from the distinct part `i` along the follows relation.
pub open spec fn part_reach(l: LocalData, g: GlobalData, p: Seq<Vec<String>>, i: int, j: int) -> bool {
    i != j && reaches(part_arcs(l, g, p), i, j)
}

/// Parts `i` and `j` reach each other both ways or neither way.
pub open spec fn reach_balanced(l: LocalData, g: GlobalData, p: Seq<Vec<String>>, i: int, j: int) -> bool {
    part_reach(l, g, p, i, j) == part_reach(l, g, p, j, i)
}

/// For some activity `a` of part `lo` and `b` of part `hi`, a divergent object
/// type of the two (in the context of the parts `lo..=hi`) has a graph that lacks
/// the edge `(a, b)` or the edge `(b, a)`.
pub open spec fn divergent_gap(l: LocalData, g: GlobalData, p: Seq<Vec<String>>, lo: int, hi: int) -> bool {
    exists|ka: int, kb: int, t: Seq<char>| 0 <= ka < p[lo]@.len() && 0 <= kb < p[hi]@.len()
        && #[trigger] is_divergent_type(g, p[lo]@[ka]@, p[hi]@[kb]@, segment(p, lo, hi), t)
        && l.has_dfg(t) && !(l.df_key(t, p[lo]@[ka]@, p[hi]@[kb]@) && l.df_key(t, p[hi]@[kb]@, p[lo]@[ka]@))
}

/// `divergent_gap` with the smaller part first.
pub open spec fn divergent_gap_between(l: LocalData, g: GlobalData, p: Seq<Vec<String>>, i: int, j: int) -> bool {
    if i <= j { divergent_gap(l, g, p, i, j) } else { divergent_gap(l, g, p, j, i) }
}

/// `k` is the first part that holds `x`.
pub open spec fn first_part(p: Seq<Vec<String>>, x: Seq<char>, k: int) -> bool {
    0 <= k < p.len() && seq_has(p[k]@, x) && forall|m: int| 0 <= m < k ==> !seq_has(#[trigger] p[m]@, x)
}

/// The first part that holds `x`.
pub open spec fn part_of(p: Seq<Vec<String>>, x: Seq<char>) -> int {
    choose|k: int| first_part(p, x, k)
}

proof fn lemma_first_part_unique(p: Seq<Vec<String>>, x: Seq<char>, k: int)
    requires
        first_part(p, x, k),
    ensures
        part_of(p, x) == k,
{
    let c = choose|c: int| first_part(p, x, c);
    assert(first_part(p, x, c));
    if c < k {
        assert(!seq_has(p[c]@, x));
    } else if k < c {
        assert(!seq_has(p[k]@, x));
    }
}

// ---------------------------------------------------------------------------
// Their checks.

/// Whether `seq_related` holds for `a` and `b`.
fn check_sequence_1(l: &LocalData, g: &GlobalData, a: &String, b: &String) -> (r: bool)
    requires
        l.wf(),
        g.wf(),
    ensures
        r == seq_related(*l, *g, *a, *b),
{
    let mut ctx: Vec<String> = Vec::new();
    ctx.push(a.clone());
    ctx.push(b.clone());
    assert(ctx@ =~= pair_ctx(*a, *b));
    let nd = get_non_divergent_types(a, b, ctx.as_slice(), g);
    let mut k: usize = 0;
    while k < nd.len()
        invariant
            0 <= k <= nd@.len(),
            l.wf(),
            forall|m: int| 0 <= m < k ==> !(l.has_clos((#[trigger] nd@[m])@)
                && (l.reaches(nd@[m]@, a@, b@) == l.reaches(nd@[m]@, b@, a@))),
        decreases nd@.len() - k,
    {
        match lookup_clos(&l.clos, &nd[k]) {
            Some(c) => {
                let ab = contains_pair(c, a, b);
                let ba = contains_pair(c, b, a);
                if ab == ba {
                    proof {
                        assert(seq_has(nd@, nd@[k as int]@));
                        assert(is_non_divergent_type(*g, a@, b@, pair_ctx(*a, *b), nd@[k as int]@));
                    }
                    return true;
                }
            },
            None => {},
        }
        k += 1;
    }
    proof {
        if seq_related(*l, *g, *a, *b) {
            let t = choose|t: Seq<char>| #[trigger] is_non_divergent_type(*g, a@, b@, pair_ctx(*a, *b), t)
                && l.has_clos(t) && (l.reaches(t, a@, b@) == l.reaches(t, b@, a@));
            assert(seq_has(nd@, t));
            let m = choose|m: int| 0 <= m < nd@.len() && (#[trigger] nd@[m])@ == t;
        }
    }
    false
}

/// Whether some non-divergent type reaches `b` from `a` (context `ctx`).
fn follows_in_context(l: &LocalData, g: &GlobalData, a: &String, b: &String, ctx: &Vec<String>) -> (r: bool)
    requires
        l.wf(),
        g.wf(),
    ensures
        r == exists|t: Seq<char>| #[trigger] is_non_divergent_type(*g, a@, b@, ctx@, t) && l.reaches(t, a@, b@),
{
    let nd = get_non_divergent_types(a, b, ctx.as_slice(), g);
    let mut k: usize = 0;
    while k < nd.len()
        invariant
            0 <= k <= nd@.len(),
            l.wf(),
            forall|m: int| 0 <= m < k ==> !l.reaches((#[trigger] nd@[m])@, a@, b@),
        decreases nd@.len() - k,
    {
        match lookup_clos(&l.clos, &nd[k]) {
            Some(c) => {
                if contains_pair(c, a, b) {
                    proof {
                        assert(seq_has(nd@, nd@[k as int]@));
                    }
                    return true;
                }
            },
            None => {},
        }
        k += 1;
    }
    proof {
        if exists|t: Seq<char>| #[trigger] is_non_divergent_type(*g, a@, b@, ctx@, t) && l.reaches(t, a@, b@) {
            let t = choose|t: Seq<char>| #[trigger] is_non_divergent_type(*g, a@, b@, ctx@, t) && l.reaches(t, a@, b@);
            assert(seq_has(nd@, t));
            let m = choose|m: int| 0 <= m < nd@.len() && (#[trigger] nd@[m])@ == t;
        }
    }
    false
}

/// Whether `part_follows` holds for `pi` and `pj`.
fn parts_follow(l: &LocalData, g: &GlobalData, pi: &Vec<String>, pj: &Vec<String>) -> (r: bool)
    requires
        l.wf(),
        g.wf(),
    ensures
        r == part_follows(*l, *g, pi@, pj@),
{
    let ctx = concat_strings(pi.as_slice(), pj.as_slice());
    let mut ka: usize = 0;
    while ka < pi.len()
        invariant
            0 <= ka <= pi@.len(),
            l.wf(),
            g.wf(),
            ctx@ == pi@ + pj@,
            forall|m: int, n: int, t: Seq<char>| 0 <= m < ka && 0 <= n < pj@.len() ==>
                !(#[trigger] is_non_divergent_type(*g, pi@[m]@, pj@[n]@, pi@ + pj@, t) && l.reaches(t, pi@[m]@, pj@[n]@)),
        decreases pi@.len() - ka,
    {
        let mut kb: usize = 0;
        while kb < pj.len()
            invariant
                0 <= ka < pi@.len(),
                0 <= kb <= pj@.len(),
                l.wf(),
                g.wf(),
                ctx@ == pi@ + pj@,
                forall|m: int, n: int, t: Seq<char>| 0 <= m < ka && 0 <= n < pj@.len() ==>
                    !(#[trigger] is_non_divergent_type(*g, pi@[m]@, pj@[n]@, pi@ + pj@, t) && l.reaches(t, pi@[m]@, pj@[n]@)),
                forall|n: int, t: Seq<char>| 0 <= n < kb ==>
                    !(#[trigger] is_non_divergent_type(*g, pi@[ka as int]@, pj@[n]@, pi@ + pj@, t) && l.reaches(t, pi@[ka as int]@, pj@[n]@)),
            decreases pj@.len() - kb,
        {
            if follows_in_context(l, g, &pi[ka], &pj[kb], &ctx) {
                proof {
                    let t = choose|t: Seq<char>| #[trigger] is_non_divergent_type(*g, pi@[ka as int]@, pj@[kb as int]@, ctx@, t)
                        && l.reaches(t, pi@[ka as int]@, pj@[kb as int]@);
                    assert(is_non_divergent_type(*g, pi@[ka as int]@, pj@[kb as int]@, pi@ + pj@, t));
                }
                return true;
            }
            kb += 1;
        }
        ka += 1;
    }
    false
}

/// Whether `divergent_gap` holds for the parts `lo <= hi`.
fn check_divergent_gap(l: &LocalData, g: &GlobalData, p: &Vec<Vec<String>>, lo: usize, hi: usize) -> (r: bool)
    requires
        l.wf(),
        g.wf(),
        lo <= hi < p@.len(),
    ensures
        r == divergent_gap(*l, *g, p@, lo as int, hi as int),
{
    let seg = flatten_range(p.as_slice(), lo, hi);
    let pi = &p[lo];
    let pj = &p[hi];
    let mut ka: usize = 0;
    while ka < pi.len()
        invariant
            0 <= ka <= pi@.len(),
            l.wf(),
            g.wf(),
            lo <= hi < p@.len(),
            pi@ == p@[lo as int]@,
            pj@ == p@[hi as int]@,
            seg@ == segment(p@, lo as int, hi as int),
            forall|m: int, n: int, t: Seq<char>| 0 <= m < ka && 0 <= n < pj@.len() ==>
                !(#[trigger] is_divergent_type(*g, pi@[m]@, pj@[n]@, seg@, t) && l.has_dfg(t)
                    && !(l.df_key(t, pi@[m]@, pj@[n]@) && l.df_key(t, pj@[n]@, pi@[m]@))),
        decreases pi@.len() - ka,
    {
        let mut kb: usize = 0;
        while kb < pj.len()
            invariant
                0 <= ka < pi@.len(),
                0 <= kb <= pj@.len(),
                l.wf(),
                g.wf(),
                seg@ == segment(p@, lo as int, hi as int),
                forall|m: int, n: int, t: Seq<char>| 0 <= m < ka && 0 <= n < pj@.len() ==>
                    !(#[trigger] is_divergent_type(*g, pi@[m]@, pj@[n]@, seg@, t) && l.has_dfg(t)
                        && !(l.df_key(t, pi@[m]@, pj@[n]@) && l.df_key(t, pj@[n]@, pi@[m]@))),
                forall|n: int, t: Seq<char>| 0 <= n < kb ==>
                    !(#[trigger] is_divergent_type(*g, pi@[ka as int]@, pj@[n]@, seg@, t) && l.has_dfg(t)
                        && !(l.df_key(t, pi@[ka as int]@, pj@[n]@) && l.df_key(t, pj@[n]@, pi@[ka as int]@))),
            decreases pj@.len() - kb,
        {
            let a = &pi[ka];
            let b = &pj[kb];
            let dv = get_divergent_types(a, b, seg.as_slice(), g);
            let mut k: usize = 0;
            while k < dv.len()
                invariant
                    0 <= k <= dv@.len(),
                    l.wf(),
                    forall|t: Seq<char>| #[trigger] seq_has(dv@, t) <==> is_divergent_type(*g, a@, b@, seg@, t),
                    forall|m: int| 0 <= m < k ==> !(l.has_dfg((#[trigger] dv@[m])@)
                        && !(l.df_key(dv@[m]@, a@, b@) && l.df_key(dv@[m]@, b@, a@))),
                decreases dv@.len() - k,
            {
                match lookup_dfg(&l.dfgs, &dv[k]) {
                    Some(dfg) => {
                        let ab = has_edge(&dfg.edges, a, b);
                        let ba = has_edge(&dfg.edges, b, a);
                        if !ab || !ba {
                            proof {
                                assert(seq_has(dv@, dv@[k as int]@));
                            }
                            return true;
                        }
                    },
                    None => {},
                }
                k += 1;
            }
            proof {
                assert forall|t: Seq<char>| !(#[trigger] is_divergent_type(*g, a@, b@, seg@, t) && l.has_dfg(t)
                    && !(l.df_key(t, a@, b@) && l.df_key(t, b@, a@))) by {
                    if is_divergent_type(*g, a@, b@, seg@, t) {
                        assert(seq_has(dv@, t));
                        let m = choose|m: int| 0 <= m < dv@.len() && (#[trigger] dv@[m])@ == t;
                    }
                }
            }
            kb += 1;
        }
        ka += 1;
    }
    false
}

/// Whether `divergent_gap_between` holds for the parts `i` and `j`.
fn check_sequence_3(l: &LocalData, g: &GlobalData, p: &Vec<Vec<String>>, i: usize, j: usize) -> (r: bool)
    requires
        l.wf(),
        g.wf(),
        i < p@.len(),
        j < p@.len(),
    ensures
        r == divergent_gap_between(*l, *g, p@, i as int, j as int),
{
    if i <= j {
        check_divergent_gap(l, g, p, i, j)
    } else {
        check_divergent_gap(l, g, p, j, i)
    }
}

/// The follows relation between the parts as a matrix.
fn follows_matrix(l: &LocalData, g: &GlobalData, p: &Vec<Vec<String>>) -> (adj: Vec<Vec<bool>>)
    requires
        l.wf(),
        g.wf(),
    ensures
        adj@.len() == p@.len(),
        square(adj@),
        arcs(adj@) == part_arcs(*l, *g, p@),
{
    let n = p.len();
    let mut adj: Vec<Vec<bool>> = Vec::new();
    let mut i: usize = 0;
    while i < n
        invariant
            0 <= i <= n,
            n == p@.len(),
            l.wf(),
            g.wf(),
            adj@.len() == i,
            forall|a: int| 0 <= a < i ==> (#[trigger] adj@[a])@.len() == n,
            forall|a: int, b: int| 0 <= a < i && 0 <= b < n ==> (adj@[a]@[b] <==> part_arcs(*l, *g, p@)(a, b)),
        decreases n - i,
    {
        let mut row: Vec<bool> = Vec::new();
        let mut j: usize = 0;
        while j < n
            invariant
                0 <= i < n,
                0 <= j <= n,
                n == p@.len(),
                l.wf(),
                g.wf(),
                row@.len() == j,
                forall|b: int| 0 <= b < j ==> (row@[b] <==> part_arcs(*l, *g, p@)(i as int, b)),
            decreases n - j,
        {
            let f = i != j && parts_follow(l, g, &p[i], &p[j]);
            row.push(f);
            j += 1;
        }
        adj.push(row);
        i += 1;
    }
    proof {
        assert(arcs(adj@) =~= part_arcs(*l, *g, p@));
    }
    adj
}

/// For each part, which parts it reaches: `clos[i][j]` holds for distinct parts
/// `i` and `j` where `j` is reachable from `i`.
pub(crate) fn partition_closure(l: &LocalData, g: &GlobalData, p: &Vec<Vec<String>>) -> (clos: Vec<Vec<bool>>)
    requires
        l.wf(),
        g.wf(),
    ensures
        clos@.len() == p@.len(),
        square(clos@),
        forall|i: int, j: int| 0 <= i < p@.len() && 0 <= j < p@.len() ==> (clos@[i]@[j] <==> part_reach(*l, *g, p@, i, j)),
{
    let adj = follows_matrix(l, g, p);
    let n = p.len();
    let mut clos: Vec<Vec<bool>> = Vec::new();
    let mut i: usize = 0;
    while i < n
        invariant
            0 <= i <= n,
            n == p@.len(),
            adj@.len() == n,
            square(adj@),
            arcs(adj@) == part_arcs(*l, *g, p@),
            clos@.len() == i,
            forall|a: int| 0 <= a < i ==> (#[trigger] clos@[a])@.len() == n,
            forall|a: int, b: int| 0 <= a < i && 0 <= b < n ==> (clos@[a]@[b] <==> part_reach(*l, *g, p@, a, b)),
        decreases n - i,
    {
        let reach = reach_from(&adj, i);
        let mut row: Vec<bool> = Vec::new();
        let mut j: usize = 0;
        while j < n
            invariant
                0 <= i < n,
                0 <= j <= n,
                reach@.len() == n,
                arcs(adj@) == part_arcs(*l, *g, p@),
                forall|b: int| 0 <= b < n ==> (reach@[b] <==> reaches(arcs(adj@), i as int, b)),
                row@.len() == j,
                forall|b: int| 0 <= b < j ==> (row@[b] <==> part_reach(*l, *g, p@, i as int, b)),
            decreases n - j,
        {
            row.push(i != j && reach[j]);
            j += 1;
        }
        clos.push(row);
        i += 1;
    }
    clos
}

/// Whether the parts `i` and `j` reach each other both ways or neither way.
pub fn check_sequence_2(partition_closure: &Vec<Vec<bool>>, i: usize, j: usize) -> (r: bool)
    requires
        square(partition_closure@),
        i < partition_closure@.len(),
        j < partition_closure@.len(),
    ensures
        r == (partition_closure@[i as int]@[j as int] == partition_closure@[j as int]@[i as int]),
{
    let ij = partition_closure[i][j];
    let ji = partition_closure[j][i];
    (ij && ji) || (!ij && !ji)
}

/// The first part that holds `act`, if any.
pub fn partition_index(partition: &[Vec<String>], act: &String) -> (r: Option<usize>)
    ensures
        r matches Some(k) ==> first_part(partition@, act@, k as int),
        r is None ==> forall|k: int| 0 <= k < partition@.len() ==> !seq_has(#[trigger] partition@[k]@, act@),
{
    let mut k: usize = 0;
    while k < partition.len()
        invariant
            0 <= k <= partition@.len(),
            forall|m: int| 0 <= m < k ==> !seq_has(#[trigger] partition@[m]@, act@),
        decreases partition@.len() - k,
    {
        let part = &partition[k];
        let mut m: usize = 0;
        while m < part.len()
            invariant
                0 <= m <= part@.len(),
                forall|q: int| 0 <= q < m ==> (#[trigger] part@[q])@ != act@,
            decreases part@.len() - m,
        {
            if part[m] == *act {
                return Some(k);
            }
            m += 1;
        }
        k += 1;
    }
    None
}

// ---------------------------------------------------------------------------
// The three rounds of grouping.

/// The parts list, in order of their first position, the activities of the
/// connected components of `e` over the alphabet positions.
pub open spec fn components_listing(p: Seq<Vec<String>>, e: spec_fn(int, int) -> bool, alphabet: Seq<String>) -> bool {
    exists|groups: Seq<Vec<usize>>| #[trigger] is_component_grouping(groups, e, alphabet.len() as int)
        && #[trigger] parts_listing(p, groups, alphabet)
}

/// Every activity of the alphabet lies in some part.
pub open spec fn holds_alphabet(p: Seq<Vec<String>>, alphabet: Seq<String>) -> bool {
    forall|x: int| 0 <= x < alphabet.len() ==> #[trigger] in_partition(p, alphabet[x]@)
}

pub(crate) proof fn lemma_listing_holds_alphabet(p: Seq<Vec<String>>, e: spec_fn(int, int) -> bool, alphabet: Seq<String>)
    requires
        components_listing(p, e, alphabet),
    ensures
        holds_alphabet(p, alphabet),
{
    let groups = choose|groups: Seq<Vec<usize>>| #[trigger] is_component_grouping(groups, e, alphabet.len() as int)
        && #[trigger] parts_listing(p, groups, alphabet);
    assert forall|x: int| 0 <= x < alphabet.len() implies #[trigger] in_partition(p, alphabet[x]@) by {
        assert(crate::ocim::components::grouped(groups, x));
        let (g, k) = choose|g: int, k: int| 0 <= g < groups.len() && 0 <= k < groups[g]@.len() && #[trigger] groups[g]@[k] == x;
        assert(p[g]@[k] == alphabet[x]);
        assert(seq_has(p[g]@, alphabet[x]@));
    }
}

/// Groups the alphabet into the connected components of the marked pairs.
fn connected_partitions(alphabet: &Vec<String>, adj: &Vec<Vec<bool>>, e: Ghost<spec_fn(int, int) -> bool>) -> (r: Vec<Vec<String>>)
    requires
        square(adj@),
        adj@.len() == alphabet@.len(),
        marked_edges(adj@) == e@,
    ensures
        components_listing(r@, e@, alphabet@),
        holds_alphabet(r@, alphabet@),
{
    let uf = union_components(adj);
    let groups = group_indices(&uf, alphabet.len(), e);
    let r = parts_of_groups(alphabet, &groups);
    proof {
        assert(is_component_grouping(groups@, e@, alphabet@.len() as int) && parts_listing(r@, groups@, alphabet@));
        lemma_listing_holds_alphabet(r@, e@, alphabet@);
    }
    r
}

/// The pairs of alphabet positions `i < j` that each round keeps together: in
/// round 1 those of `seq_related`; in round 2 also those whose parts in `p` reach
/// each other both ways or neither way; in round 3 also those whose parts in `p`
/// have a divergent gap.
pub open spec fn stage_edges(l: LocalData, g: GlobalData, round: int, p: Seq<Vec<String>>) -> spec_fn(int, int) -> bool {
    |i: int, j: int| 0 <= i < j < l.alphabet@.len() && {
        let a = l.alphabet@[i];
        let b = l.alphabet@[j];
        let pi = part_of(p, a@);
        let pj = part_of(p, b@);
        ||| seq_related(l, g, a, b)
        ||| (round >= 2 && reach_balanced(l, g, p, pi, pj))
        ||| (round >= 3 && divergent_gap_between(l, g, p, pi, pj))
    }
}

/// The pairs that round `round` keeps together, as a matrix.
fn stage_matrix(l: &LocalData, g: &GlobalData, round: usize, p: &Vec<Vec<String>>) -> (adj: Vec<Vec<bool>>)
    requires
        l.wf(),
        g.wf(),
        round >= 2 ==> holds_alphabet(p@, l.alphabet@),
    ensures
        adj@.len() == l.alphabet@.len(),
        square(adj@),
        marked_edges(adj@) == stage_edges(*l, *g, round as int, p@),
{
    let ghost e = stage_edges(*l, *g, round as int, p@);
    let n = l.alphabet.len();
    let clos = if round >= 2 { partition_closure(l, g, p) } else { Vec::new() };
    let mut adj: Vec<Vec<bool>> = Vec::new();
    let mut i: usize = 0;
    while i < n
        invariant
            0 <= i <= n,
            n == l.alphabet@.len(),
            l.wf(),
            g.wf(),
            round >= 2 ==> holds_alphabet(p@, l.alphabet@),
            round >= 2 ==> clos@.len() == p@.len() && square(clos@),
            round >= 2 ==> forall|a: int, b: int| 0 <= a < p@.len() && 0 <= b < p@.len() ==> (clos@[a]@[b] <==> part_reach(*l, *g, p@, a, b)),
            e == stage_edges(*l, *g, round as int, p@),
            adj@.len() == i,
            forall|a: int| 0 <= a < i ==> (#[trigger] adj@[a])@.len() == n,
            forall|a: int, b: int| 0 <= a < i && 0 <= b < n ==> (adj@[a]@[b] <==> e(a, b)),
        decreases n - i,
    {
        let mut row: Vec<bool> = Vec::new();
        let mut j: usize = 0;
        while j < n
            invariant
                0 <= i < n,
                0 <= j <= n,
                n == l.alphabet@.len(),
                l.wf(),
                g.wf(),
                round >= 2 ==> holds_alphabet(p@, l.alphabet@),
                round >= 2 ==> clos@.len() == p@.len() && square(clos@),
                round >= 2 ==> forall|a: int, b: int| 0 <= a < p@.len() && 0 <= b < p@.len() ==> (clos@[a]@[b] <==> part_reach(*l, *g, p@, a, b)),
                e == stage_edges(*l, *g, round as int, p@),
                row@.len() == j,
                forall|b: int| 0 <= b < j ==> (row@[b] <==> e(i as int, b)),
            decreases n - j,
        {
            let mut linked = false;
            if j > i {
                let a = &l.alphabet[i];
                let b = &l.alphabet[j];
                linked = check_sequence_1(l, g, a, b);
                if !linked && round >= 2 {
                    proof {
                        assert(in_partition(p@, l.alphabet@[i as int]@));
                        assert(in_partition(p@, l.alphabet@[j as int]@));
                    }
                    match (partition_index(p.as_slice(), a), partition_index(p.as_slice(), b)) {
                        (Some(pi), Some(pj)) => {
                            proof {
                                lemma_first_part_unique(p@, a@, pi as int);
                                lemma_first_part_unique(p@, b@, pj as int);
                            }
                            linked = check_sequence_2(&clos, pi, pj);
                            if !linked && round >= 3 {
                                linked = check_sequence_3(l, g, p, pi, pj);
                            }
                        },
                        _ => {
                            proof {
                                assert(false);
                            }
                        },
                    }
                }
            }
            row.push(linked);
            j += 1;
        }
        adj.push(row);
        i += 1;
    }
    proof {
        assert(marked_edges(adj@) =~= e);
    }
    adj
}

// ---------------------------------------------------------------------------
// Topological order of the parts.

/// What `petgraph::algo::toposort` returns for the graph with nodes `0..n` and
/// the arcs added in the given order: the nodes in order, or nothing for a cycle.
pub uninterp spec fn toposort_order(n: usize, arcs: Seq<(usize, usize)>) -> Option<Seq<usize>>;

/// `(a, b)` is one of the arcs.
pub open spec fn arc_listed(arcs: Seq<(usize, usize)>, a: usize, b: usize) -> bool {
    exists|k: int| 0 <= k < arcs.len() && arcs[k] == (a, b)
}

/// `order` lists each node `0..n` once, every arc's source before its target.
pub open spec fn is_topological_order(order: Seq<usize>, n: nat, arcs: Seq<(usize, usize)>) -> bool {
    &&& order.len() == n
    &&& forall|k: int| 0 <= k < n ==> #[trigger] order[k] < n
    &&& forall|k1: int, k2: int| 0 <= k1 < n && 0 <= k2 < n && k1 != k2 ==> #[trigger] order[k1] != #[trigger] order[k2]
    &&& forall|k: int, q1: int, q2: int| 0 <= k < arcs.len() && 0 <= q1 < n && 0 <= q2 < n
        && #[trigger] order[q1] == (#[trigger] arcs[k]).0 && #[trigger] order[q2] == arcs[k].1 ==> q1 < q2
}

/// `w` walks along the arcs from a node back to it.
pub open spec fn is_closed_walk(arcs: Seq<(usize, usize)>, w: Seq<usize>) -> bool {
    &&& w.len() >= 2
    &&& w[0] == w[w.len() - 1]
    &&& forall|m: int| 0 <= m < w.len() - 1 ==> arc_listed(arcs, #[trigger] w[m], w[m + 1])
}

/// `petgraph::algo::toposort` on the graph with nodes `0..n` and the given arcs:
/// its documentation promises the nodes in an order in which each node comes
/// before its successors, or an error where the graph has a cycle (self loops
/// included). The result is named by `toposort_order`.
#[verifier::external_body]
fn topological_order(n: usize, arcs: &Vec<(usize, usize)>) -> (r: Option<Vec<usize>>)
    requires
        forall|k: int| 0 <= k < arcs@.len() ==> (#[trigger] arcs@[k]).0 < n && arcs@[k].1 < n,
    ensures
        match r {
            Some(v) => toposort_order(n, arcs@) == Some(v@) && is_topological_order(v@, n as nat, arcs@),
            None => toposort_order(n, arcs@) is None && exists|w: Seq<usize>| #[trigger] is_closed_walk(arcs@, w),
        },
{
    let mut graph: Graph<usize, (), Directed, usize> = Graph::default();
    for i in 0..n {
        graph.add_node(i);
    }
    for &(a, b) in arcs.iter() {
        graph.add_edge(NodeIndex::new(a), NodeIndex::new(b), ());
    }
    match toposort(&graph, None) {
        Ok(order) => Some(order.into_iter().map(|x| x.index()).collect()),
        Err(_) => None,
    }
}

/// The arcs `(i, j)` of `e` with `j < jn` in row `i`, by increasing `j`.
pub open spec fn arcs_in_row(e: spec_fn(int, int) -> bool, i: int, jn: int) -> Seq<(usize, usize)>
    decreases jn,
{
    if jn <= 0 {
        Seq::empty()
    } else {
        arcs_in_row(e, i, jn - 1) + if e(i, jn - 1) { seq![(i as usize, (jn - 1) as usize)] } else { Seq::empty() }
    }
}

/// The arcs of `e` in rows below `rows` of an `n`-node graph, row by row.
pub open spec fn arcs_upto(e: spec_fn(int, int) -> bool, n: int, rows: int) -> Seq<(usize, usize)>
    decreases rows,
{
    if rows <= 0 {
        Seq::empty()
    } else {
        arcs_upto(e, n, rows - 1) + arcs_in_row(e, rows - 1, n)
    }
}

/// `q` is `p` in the order that the topological sort of the follows relation
/// gives, or `p` itself where the relation has a cycle.
pub open spec fn topo_ordered(l: LocalData, g: GlobalData, p: Seq<Vec<String>>, q: Seq<Vec<String>>) -> bool {
    match toposort_order(p.len() as usize, arcs_upto(part_arcs(l, g, p), p.len() as int, p.len() as int)) {
        Some(order) => is_topological_order(order, p.len(), arcs_upto(part_arcs(l, g, p), p.len() as int, p.len() as int))
            && q.len() == order.len() && forall|k: int| 0 <= k < q.len() ==> #[trigger] q[k]@ == p[order[k] as int]@,
        None => q.len() == p.len() && forall|k: int| 0 <= k < q.len() ==> #[trigger] q[k]@ == p[k]@,
    }
}

/// A copy of the strings.
fn copy_part(v: &Vec<String>) -> (r: Vec<String>)
    ensures
        r@ == v@,
{
    let mut out: Vec<String> = Vec::new();
    let mut i: usize = 0;
    while i < v.len()
        invariant
            0 <= i <= v@.len(),
            out@ == v@.subrange(0, i as int),
        decreases v@.len() - i,
    {
        out.push(v[i].clone());
        i += 1;
        assert(out@ =~= v@.subrange(0, i as int));
    }
    assert(v@.subrange(0, v@.len() as int) =~= v@);
    out
}

/// The parts in the topological order of their follows relation; in their own
/// order where that relation has a cycle.
pub(crate) fn topo_order_partitions(partition: &Vec<Vec<String>>, l: &LocalData, g: &GlobalData) -> (r: Vec<Vec<String>>)
    requires
        l.wf(),
        g.wf(),
    ensures
        topo_ordered(*l, *g, partition@, r@),
        r@.len() == partition@.len(),
{
    let p = partition;
    let n = p.len();
    let adj = follows_matrix(l, g, p);
    let ghost e = part_arcs(*l, *g, p@);
    let mut arc_list: Vec<(usize, usize)> = Vec::new();
    let mut i: usize = 0;
    while i < n
        invariant
            0 <= i <= n,
            n == p@.len(),
            adj@.len() == n,
            square(adj@),
            arcs(adj@) == e,
            arc_list@ == arcs_upto(e, n as int, i as int),
            forall|k: int| 0 <= k < arc_list@.len() ==> (#[trigger] arc_list@[k]).0 < n && arc_list@[k].1 < n,
        decreases n - i,
    {
        let mut j: usize = 0;
        let ghost before = arc_list@;
        while j < n
            invariant
                0 <= i < n,
                0 <= j <= n,
                n == p@.len(),
                adj@.len() == n,
                square(adj@),
                arcs(adj@) == e,
                arc_list@ == before + arcs_in_row(e, i as int, j as int),
                forall|k: int| 0 <= k < arc_list@.len() ==> (#[trigger] arc_list@[k]).0 < n && arc_list@[k].1 < n,
            decreases n - j,
        {
            assert(adj@[i as int]@.len() == n);
            if adj[i][j] {
                arc_list.push((i, j));
            }
            assert(arc_list@ =~= before + arcs_in_row(e, i as int, j + 1));
            j += 1;
        }
        assert(arc_list@ =~= arcs_upto(e, n as int, i + 1));
        i += 1;
    }
    let mut out: Vec<Vec<String>> = Vec::new();
    match topological_order(n, &arc_list) {
        Some(order) => {
            let mut k: usize = 0;
            while k < order.len()
                invariant
                    0 <= k <= order@.len(),
                    order@.len() == n,
                    n == p@.len(),
                    forall|q: int| 0 <= q < n ==> #[trigger] order@[q] < n,
                    out@.len() == k,
                    forall|q: int| 0 <= q < k ==> #[trigger] out@[q]@ == p@[order@[q] as int]@,
                decreases order@.len() - k,
            {
                assert(order@[k as int] < n);
                out.push(copy_part(&p[order[k]]));
                k += 1;
            }
        },
        None => {
            let mut k: usize = 0;
            while k < n
                invariant
                    0 <= k <= n,
                    n == p@.len(),
                    out@.len() == k,
                    forall|q: int| 0 <= q < k ==> #[trigger] out@[q]@ == p@[q]@,
                decreases n - k,
            {
                out.push(copy_part(&p[k]));
                k += 1;
            }
        },
    }
    out
}

// ---------------------------------------------------------------------------
// Merging parts that reach each other.

/// Parts `i` and `j` are the same part or reach each other both ways.
pub open spec fn mutual(l: LocalData, g: GlobalData, p: Seq<Vec<String>>, i: int, j: int) -> bool {
    i == j || (part_reach(l, g, p, i, j) && part_reach(l, g, p, j, i))
}

/// Part `i` comes first among the parts mutual with it.
pub open spec fn leads(l: LocalData, g: GlobalData, p: Seq<Vec<String>>, i: int) -> bool {
    0 <= i < p.len() && forall|k: int| 0 <= k < i ==> !#[trigger] mutual(l, g, p, k, i)
}

/// `ls` lists the leading parts in increasing order.
pub open spec fn leaders_listing(l: LocalData, g: GlobalData, p: Seq<Vec<String>>, ls: Seq<usize>) -> bool {
    &&& forall|m: int| 0 <= m < ls.len() ==> #[trigger] leads(l, g, p, ls[m] as int)
    &&& forall|m1: int, m2: int| 0 <= m1 < m2 < ls.len() ==> #[trigger] ls[m1] < #[trigger] ls[m2]
    &&& forall|i: int| #[trigger] leads(l, g, p, i) ==> exists|m: int| 0 <= m < ls.len() && ls[m] == i
}

/// `x` lies in a part mutual with part `i`.
pub open spec fn in_cycle_of(l: LocalData, g: GlobalData, p: Seq<Vec<String>>, i: int, x: Seq<char>) -> bool {
    exists|j: int| 0 <= j < p.len() && #[trigger] mutual(l, g, p, i, j) && seq_has(p[j]@, x)
}

/// `q` lists, for each leading part in order, the activities of the parts mutual
/// with it, in increasing order and each once.
pub open spec fn cycles_listing(l: LocalData, g: GlobalData, p: Seq<Vec<String>>, q: Seq<Vec<String>>) -> bool {
    exists|ls: Seq<usize>| #[trigger] leaders_listing(l, g, p, ls) && q.len() == ls.len()
        && forall|m: int| 0 <= m < q.len() ==> sorted_strict(#[trigger] q[m]@)
            && forall|x: Seq<char>| #[trigger] seq_has(q[m]@, x) <==> in_cycle_of(l, g, p, ls[m] as int, x)
}

/// Two distinct parts reach each other.
pub open spec fn has_cycle_parts(l: LocalData, g: GlobalData, p: Seq<Vec<String>>) -> bool {
    exists|i: int, j: int| 0 <= i < j < p.len() && #[trigger] mutual(l, g, p, i, j)
}

/// Merges the parts that reach each other into the first of them (each merged
/// part sorted and without repeats), and tells whether any merge happened.
fn remove_cycles(partition: Vec<Vec<String>>, l: &LocalData, g: &GlobalData) -> (r: (Vec<Vec<String>>, bool))
    requires
        l.wf(),
        g.wf(),
    ensures
        cycles_listing(*l, *g, partition@, r.0@),
        r.1 == has_cycle_parts(*l, *g, partition@),
        r.1 ==> r.0@.len() < partition@.len(),
        !r.1 ==> r.0@.len() == partition@.len(),
{
    let p = &partition;
    let n = p.len();
    let ghost pv = p@;
    let clos = partition_closure(l, g, p);
    let mut out: Vec<Vec<String>> = Vec::new();
    let ghost mut ls: Seq<usize> = Seq::empty();
    let mut change = false;
    let mut i: usize = 0;
    while i < n
        invariant
            0 <= i <= n,
            n == pv.len(),
            pv == p@,
            clos@.len() == n,
            square(clos@),
            forall|a: int, b: int| 0 <= a < n && 0 <= b < n ==> (clos@[a]@[b] <==> part_reach(*l, *g, pv, a, b)),
            out@.len() == ls.len(),
            ls.len() <= i,
            change == (ls.len() < i),
            change == exists|a: int, b: int| 0 <= a < b < i && #[trigger] mutual(*l, *g, pv, a, b),
            forall|m: int| 0 <= m < ls.len() ==> #[trigger] leads(*l, *g, pv, ls[m] as int) && ls[m] < i,
            forall|m1: int, m2: int| 0 <= m1 < m2 < ls.len() ==> #[trigger] ls[m1] < #[trigger] ls[m2],
            forall|a: int| 0 <= a < i && #[trigger] leads(*l, *g, pv, a) ==> exists|m: int| 0 <= m < ls.len() && ls[m] == a,
            forall|m: int| 0 <= m < out@.len() ==> sorted_strict(#[trigger] out@[m]@)
                && forall|x: Seq<char>| #[trigger] seq_has(out@[m]@, x) <==> in_cycle_of(*l, *g, pv, ls[m] as int, x),
        decreases n - i,
    {
        // is some earlier part mutual with part `i`?
        let mut k: usize = 0;
        let mut led = true;
        while k < i
            invariant
                0 <= k <= i < n,
                n == pv.len(),
                clos@.len() == n,
                square(clos@),
                forall|a: int, b: int| 0 <= a < n && 0 <= b < n ==> (clos@[a]@[b] <==> part_reach(*l, *g, pv, a, b)),
                led == forall|c: int| 0 <= c < k ==> !#[trigger] mutual(*l, *g, pv, c, i as int),
            decreases i - k,
        {
            assert(clos@[k as int]@.len() == n && clos@[i as int]@.len() == n);
            if clos[k][i] && clos[i][k] {
                led = false;
                assert(mutual(*l, *g, pv, k as int, i as int));
            }
            k += 1;
        }
        if led {
            let mut merged: Vec<String> = Vec::new();
            let mut j: usize = 0;
            while j < n
                invariant
                    0 <= i < n,
                    0 <= j <= n,
                    n == pv.len(),
                    pv == p@,
                    clos@.len() == n,
                    square(clos@),
                    forall|a: int, b: int| 0 <= a < n && 0 <= b < n ==> (clos@[a]@[b] <==> part_reach(*l, *g, pv, a, b)),
                    sorted_strict(merged@),
                    forall|x: Seq<char>| #[trigger] seq_has(merged@, x) <==>
                        exists|c: int| 0 <= c < j && #[trigger] mutual(*l, *g, pv, i as int, c) && seq_has(pv[c]@, x),
                decreases n - j,
            {
                assert(clos@[j as int]@.len() == n && clos@[i as int]@.len() == n);
                let joined = i == j || (clos[i][j] && clos[j][i]);
                let ghost before = merged@;
                if joined {
                    union_into(&mut merged, &p[j]);
                }
                proof {
                    assert forall|x: Seq<char>| #[trigger] seq_has(merged@, x) <==>
                        exists|c: int| 0 <= c < j + 1 && #[trigger] mutual(*l, *g, pv, i as int, c) && seq_has(pv[c]@, x) by {
                        if exists|c: int| 0 <= c < j + 1 && #[trigger] mutual(*l, *g, pv, i as int, c) && seq_has(pv[c]@, x) {
                            let c = choose|c: int| 0 <= c < j + 1 && #[trigger] mutual(*l, *g, pv, i as int, c) && seq_has(pv[c]@, x);
                            if c < j {
                                assert(seq_has(before, x));
                            }
                        }
                        if seq_has(before, x) {
                            let c = choose|c: int| 0 <= c < j && #[trigger] mutual(*l, *g, pv, i as int, c) && seq_has(pv[c]@, x);
                            assert(0 <= c < j + 1);
                        }
                        if joined && seq_has(pv[j as int]@, x) {
                            assert(mutual(*l, *g, pv, i as int, j as int));
                        }
                    }
                }
                j += 1;
            }
            let ghost old_ls = ls;
            let ghost old_out = out@;
            out.push(merged);
            proof {
                ls = ls.push(i);
                assert(leads(*l, *g, pv, i as int));
                assert forall|m: int| 0 <= m < ls.len() implies #[trigger] leads(*l, *g, pv, ls[m] as int) && ls[m] < i + 1 by {
                    if m < old_ls.len() {
                        assert(ls[m] == old_ls[m]);
                    }
                }
                assert forall|m1: int, m2: int| 0 <= m1 < m2 < ls.len() implies #[trigger] ls[m1] < #[trigger] ls[m2] by {
                    assert(ls[m1] == old_ls[m1]);
                    assert(leads(*l, *g, pv, old_ls[m1] as int) && old_ls[m1] < i);
                    if m2 < old_ls.len() {
                        assert(ls[m2] == old_ls[m2]);
                    }
                }
                assert forall|m: int| 0 <= m < out@.len() implies sorted_strict(#[trigger] out@[m]@)
                    && forall|x: Seq<char>| #[trigger] seq_has(out@[m]@, x) <==> in_cycle_of(*l, *g, pv, ls[m] as int, x) by {
                    if m < old_out.len() {
                        assert(out@[m] == old_out[m]);
                        assert(ls[m] == old_ls[m]);
                    } else {
                        assert forall|x: Seq<char>| #[trigger] seq_has(out@[m]@, x) <==> in_cycle_of(*l, *g, pv, ls[m] as int, x) by {
                            if in_cycle_of(*l, *g, pv, i as int, x) {
                                let c = choose|c: int| 0 <= c < pv.len() && #[trigger] mutual(*l, *g, pv, i as int, c) && seq_has(pv[c]@, x);
                            }
                        }
                    }
                }
                assert forall|a: int| 0 <= a < i + 1 && #[trigger] leads(*l, *g, pv, a) implies exists|m: int| 0 <= m < ls.len() && ls[m] == a by {
                    if a < i {
                        let m = choose|m: int| 0 <= m < old_ls.len() && old_ls[m] == a;
                        assert(ls[m] == a);
                    } else {
                        assert(ls[old_ls.len() as int] == a);
                    }
                }
                assert(change == exists|a: int, b: int| 0 <= a < b < i + 1 && #[trigger] mutual(*l, *g, pv, a, b)) by {
                    if exists|a: int, b: int| 0 <= a < b < i + 1 && #[trigger] mutual(*l, *g, pv, a, b) {
                        let (a, b) = choose|a: int, b: int| 0 <= a < b < i + 1 && #[trigger] mutual(*l, *g, pv, a, b);
                        if b == i {
                            assert(!mutual(*l, *g, pv, a, i as int));
                        }
                    }
                }
            }
        } else {
            change = true;
            proof {
                assert forall|m: int| 0 <= m < ls.len() implies #[trigger] leads(*l, *g, pv, ls[m] as int) && ls[m] < i + 1 by {
                    assert(leads(*l, *g, pv, ls[m] as int) && ls[m] < i);
                }
                let c = choose|c: int| 0 <= c < i && #[trigger] mutual(*l, *g, pv, c, i as int);
                assert(0 <= c < i + 1 && mutual(*l, *g, pv, c, i as int));
                assert(!leads(*l, *g, pv, i as int));
                assert forall|a: int| 0 <= a < i + 1 && #[trigger] leads(*l, *g, pv, a) implies exists|m: int| 0 <= m < ls.len() && ls[m] == a by {}
            }
        }
        i += 1;
    }
    proof {
        assert(leaders_listing(*l, *g, pv, ls)) by {
            assert forall|a: int| #[trigger] leads(*l, *g, pv, a) implies exists|m: int| 0 <= m < ls.len() && ls[m] == a by {
                assert(0 <= a < n);
            }
        }
    }
    (out, change)
}

/// The chain of merge rounds from `p` to `q`: each round merges the parts that
/// reach each other, every round but the last merged something, and the last
/// merged nothing.
pub open spec fn merge_rounds(l: LocalData, g: GlobalData, chain: Seq<Seq<Vec<String>>>) -> bool {
    &&& chain.len() >= 2
    &&& forall|k: int| 0 <= k < chain.len() - 1 ==> #[trigger] cycles_listing(l, g, chain[k], chain[k + 1])
    &&& forall|k: int| 0 <= k < chain.len() - 2 ==> #[trigger] has_cycle_parts(l, g, chain[k])
    &&& !has_cycle_parts(l, g, chain[chain.len() - 2])
}

/// `q` is what repeated merging of the parts of `p` ends with.
pub open spec fn cycles_merged(l: LocalData, g: GlobalData, p: Seq<Vec<String>>, q: Seq<Vec<String>>) -> bool {
    exists|chain: Seq<Seq<Vec<String>>>| #[trigger] merge_rounds(l, g, chain) && chain[0] == p && chain[chain.len() - 1] == q
}

/// Merges parts that reach each other until no two do.
fn merge_cycles(partition: Vec<Vec<String>>, l: &LocalData, g: &GlobalData) -> (r: Vec<Vec<String>>)
    requires
        l.wf(),
        g.wf(),
    ensures
        cycles_merged(*l, *g, partition@, r@),
{
    let ghost start = partition@;
    let mut current = partition;
    let ghost mut chain: Seq<Seq<Vec<String>>> = seq![start];
    let mut done = false;
    while !done
        invariant
            l.wf(),
            g.wf(),
            chain.len() >= 1,
            chain[0] == start,
            chain[chain.len() - 1] == current@,
            forall|k: int| 0 <= k < chain.len() - 1 ==> #[trigger] cycles_listing(*l, *g, chain[k], chain[k + 1]),
            !done ==> forall|k: int| 0 <= k < chain.len() - 1 ==> #[trigger] has_cycle_parts(*l, *g, chain[k]),
            done ==> chain.len() >= 2 && merge_rounds(*l, *g, chain),
        decreases current@.len() + if done { 0int } else { 1int },
    {
        let ghost before = current@;
        let ghost old_chain = chain;
        let (next, changed) = remove_cycles(current, l, g);
        current = next;
        proof {
            chain = chain.push(current@);
            assert forall|k: int| 0 <= k < chain.len() - 1 implies #[trigger] cycles_listing(*l, *g, chain[k], chain[k + 1]) by {
                if k < old_chain.len() - 1 {
                    assert(chain[k] == old_chain[k] && chain[k + 1] == old_chain[k + 1]);
                }
            }
            assert forall|k: int| 0 <= k < chain.len() - 2 implies #[trigger] has_cycle_parts(*l, *g, chain[k]) by {
                assert(chain[k] == old_chain[k]);
            }
        }
        if !changed {
            done = true;
        } else {
            proof {
                assert forall|k: int| 0 <= k < chain.len() - 1 implies #[trigger] has_cycle_parts(*l, *g, chain[k]) by {
                    if k < old_chain.len() - 1 {
                        assert(chain[k] == old_chain[k]);
                    }
                }
            }
        }
    }
    current
}

// ---------------------------------------------------------------------------
// The detection.

/// A topological order lists every node.
proof fn lemma_order_onto(order: Seq<usize>, n: nat, arcs: Seq<(usize, usize)>, q: int)
    requires
        is_topological_order(order, n, arcs),
        0 <= q < n,
    ensures
        exists|m: int| 0 <= m < n && order[m] == q,
{
    let oi = order.map_values(|v: usize| v as int);
    assert(is_permutation(oi, n as int)) by {
        assert forall|k1: int, k2: int| 0 <= k1 < n && 0 <= k2 < n && k1 != k2 implies #[trigger] oi[k1] != #[trigger] oi[k2] by {
            assert(order[k1] != order[k2]);
        }
    }
    lemma_permutation_onto(oi, n as int, q);
    let m = choose|m: int| 0 <= m < n && oi[m] == q;
    assert(order[m] == q);
}

/// Reordering the parts keeps every activity in some part.
proof fn lemma_topo_holds_alphabet(l: LocalData, g: GlobalData, p: Seq<Vec<String>>, q: Seq<Vec<String>>)
    requires
        topo_ordered(l, g, p, q),
        holds_alphabet(p, l.alphabet@),
    ensures
        holds_alphabet(q, l.alphabet@),
{
    let arcs = arcs_upto(part_arcs(l, g, p), p.len() as int, p.len() as int);
    assert forall|x: int| 0 <= x < l.alphabet@.len() implies #[trigger] in_partition(q, l.alphabet@[x]@) by {
        let a = l.alphabet@[x]@;
        assert(in_partition(p, a));
        let k = choose|k: int| 0 <= k < p.len() && seq_has((#[trigger] p[k])@, a);
        match toposort_order(p.len() as usize, arcs) {
            Some(order) => {
                lemma_order_onto(order, p.len(), arcs, k);
                let m = choose|m: int| 0 <= m < p.len() && order[m] == k;
                assert(q[m]@ == p[k]@);
                assert(seq_has(q[m]@, a));
            },
            None => {
                assert(q[k]@ == p[k]@);
            },
        }
    }
}

/// What the detection answers once the second round gave the parts `p2`.
pub open spec fn ordered_outcome(l: LocalData, g: GlobalData, p2: Seq<Vec<String>>, r: Option<Vec<Vec<String>>>) -> bool {
    exists|p3: Seq<Vec<String>>, p4: Seq<Vec<String>>, p5: Seq<Vec<String>>|
        #[trigger] topo_ordered(l, g, p2, p3)
        && #[trigger] components_listing(p4, stage_edges(l, g, 3, p3), l.alphabet@)
        && #[trigger] cycles_merged(l, g, p4, p5)
        && if p5.len() == 1 {
            r is None
        } else {
            exists|p6: Seq<Vec<String>>| #[trigger] topo_ordered(l, g, p5, p6) && if p6.len() == 1 || !sequence_cut_valid(l, g, p6) {
                r is None
            } else {
                r matches Some(q) && q@ == p6
            }
        }
}

/// What the detection answers: the first round groups the alphabet by
/// `seq_related`; a single part gives no cut; the second round also groups by
/// balanced reachability of the first parts; a single part gives no cut;
/// otherwise see `ordered_outcome`.
pub open spec fn sequence_outcome(l: LocalData, g: GlobalData, r: Option<Vec<Vec<String>>>) -> bool {
    exists|p1: Seq<Vec<String>>| #[trigger] components_listing(p1, stage_edges(l, g, 1, Seq::empty()), l.alphabet@)
        && if p1.len() == 1 {
            r is None
        } else {
            exists|p2: Seq<Vec<String>>| #[trigger] components_listing(p2, stage_edges(l, g, 2, p1), l.alphabet@)
                && if p2.len() == 1 {
                    r is None
                } else {
                    ordered_outcome(l, g, p2, r)
                }
        }
}

/// Detects a sequence cut of the sublog; a detected cut satisfies the sequence
/// cut definition.
pub fn find_cut_sequence(local_data: &LocalData, global_data: &GlobalData) -> (r: Option<Vec<Vec<String>>>)
    requires
        local_data.wf(),
        global_data.wf(),
    ensures
        sequence_outcome(*local_data, *global_data, r),
        r matches Some(q) ==> sequence_cut_valid(*local_data, *global_data, q@),
{
    let l = local_data;
    let g = global_data;
    let none: Vec<Vec<String>> = Vec::new();
    let adj1 = stage_matrix(l, g, 1, &none);
    let p1 = connected_partitions(&l.alphabet, &adj1, Ghost(stage_edges(*l, *g, 1, none@)));
    assert(none@ =~= Seq::<Vec<String>>::empty());
    if p1.len() == 1 {
        return None;
    }
    let adj2 = stage_matrix(l, g, 2, &p1);
    let p2 = connected_partitions(&l.alphabet, &adj2, Ghost(stage_edges(*l, *g, 2, p1@)));
    if p2.len() == 1 {
        return None;
    }
    let p3 = topo_order_partitions(&p2, l, g);
    proof {
        lemma_topo_holds_alphabet(*l, *g, p2@, p3@);
    }
    let adj3 = stage_matrix(l, g, 3, &p3);
    let p4 = connected_partitions(&l.alphabet, &adj3, Ghost(stage_edges(*l, *g, 3, p3@)));
    let ghost p4v = p4@;
    let p5 = merge_cycles(p4, l, g);
    if p5.len() == 1 {
        assert(ordered_outcome(*l, *g, p2@, None));
        return None;
    }
    let p6 = topo_order_partitions(&p5, l, g);
    if p6.len() == 1 {
        assert(ordered_outcome(*l, *g, p2@, None));
        return None;
    }
    if is_sequence_cut_valid(l, g, p6.as_slice()) {
        let r = Some(p6);
        assert(ordered_outcome(*l, *g, p2@, r));
        r
    } else {
        assert(ordered_outcome(*l, *g, p2@, None));
        None
    }
}

} // verus!
