//! The follows relations of the directly-follows graphs: for each object type,
//! which activity leads, through a chain of directly-follows edges, to which.
use vstd::prelude::*;
use crate::ocim::auxiliary_methods::push_unique;
use crate::ocim::components::{arc_ok, arcs, is_path, reach_from, reaches, square};
use crate::ocim::model::{ObjectTypeDfg, has_edge, has_edge_key, pair_in, seq_has, strings_unique};

verus! {

/// `x` is an end of some edge.
pub open spec fn is_node(edges: Seq<(String, String, u32)>, x: Seq<char>) -> bool {
    exists|k: int| 0 <= k < edges.len() && ((#[trigger] edges[k]).0@ == x || edges[k].1@ == x)
}

/// Step `k` of the walk `w` follows an edge.
pub open spec fn edge_step(edges: Seq<(String, String, u32)>, w: Seq<Seq<char>>, k: int) -> bool {
    has_edge_key(edges, w[k], w[k + 1])
}

/// `w` walks along the edges: it starts at an end of some edge and each of its
/// activities follows the one before by an edge.
pub open spec fn is_edge_walk(edges: Seq<(String, String, u32)>, w: Seq<Seq<char>>) -> bool {
    &&& w.len() > 0
    &&& is_node(edges, w[0])
    &&& forall|k: int| 0 <= k < w.len() - 1 ==> #[trigger] edge_step(edges, w, k)
}

/// `(a, b)` is in the reflexive and transitive closure of the edges over their
/// ends: some walk along the edges leads from `a` to `b`.
pub open spec fn in_closure(edges: Seq<(String, String, u32)>, a: Seq<char>, b: Seq<char>) -> bool {
    exists|w: Seq<Seq<char>>| #[trigger] is_edge_walk(edges, w) && w[0] == a && w[w.len() - 1] == b
}

/// Every end of an edge follows itself.
pub proof fn lemma_closure_reflexive(edges: Seq<(String, String, u32)>, a: Seq<char>)
    requires
        is_node(edges, a),
    ensures
        in_closure(edges, a, a),
{
    let w = seq![a];
    assert(is_edge_walk(edges, w));
}

/// The closure is transitive: what follows `b` follows everything that `b` follows.
pub proof fn lemma_closure_transitive(edges: Seq<(String, String, u32)>, a: Seq<char>, b: Seq<char>, c: Seq<char>)
    requires
        in_closure(edges, a, b),
        in_closure(edges, b, c),
    ensures
        in_closure(edges, a, c),
{
    let w1 = choose|w: Seq<Seq<char>>| #[trigger] is_edge_walk(edges, w) && w[0] == a && w[w.len() - 1] == b;
    let w2 = choose|w: Seq<Seq<char>>| #[trigger] is_edge_walk(edges, w) && w[0] == b && w[w.len() - 1] == c;
    let w = w1 + w2.skip(1);
    let n1 = w1.len();
    assert forall|k: int| 0 <= k < w.len() - 1 implies #[trigger] edge_step(edges, w, k) by {
        if k < n1 - 1 {
            assert(edge_step(edges, w1, k));
            assert(w[k] == w1[k] && w[k + 1] == w1[k + 1]);
        } else if k == n1 - 1 {
            assert(edge_step(edges, w2, 0));
            assert(w[k] == w1[n1 - 1] && w[k + 1] == w2[1]);
        } else {
            assert(edge_step(edges, w2, k - n1 + 1));
            assert(w[k] == w2[k - n1 + 1] && w[k + 1] == w2[k - n1 + 2]);
        }
    }
    if w2.len() == 1 {
        assert(w =~= w1);
    } else {
        assert(w[w.len() - 1] == w2[w2.len() - 1]);
    }
    assert(is_edge_walk(edges, w));
}

/// The follows relations of a set of directly-follows graphs.
pub struct OCGraphRelations {
    /// The directly-follows graph of each object type.
    pub cumulative_dfg: Vec<(String, ObjectTypeDfg)>,
    /// The closure of each object type.
    pub transitive_closure: Vec<(String, Vec<(String, String)>)>,
}

/// The ends of the edges, each once, in order of first appearance.
fn edge_nodes(edges: &Vec<(String, String, u32)>) -> (r: Vec<String>)
    ensures
        strings_unique(r@),
        forall|x: Seq<char>| #[trigger] seq_has(r@, x) <==> is_node(edges@, x),
{
    let mut nodes: Vec<String> = Vec::new();
    let mut k: usize = 0;
    while k < edges.len()
        invariant
            0 <= k <= edges@.len(),
            strings_unique(nodes@),
            forall|x: Seq<char>| #[trigger] seq_has(nodes@, x) <==> is_node(edges@.take(k as int), x),
        decreases edges@.len() - k,
    {
        let ghost before = nodes@;
        push_unique(&mut nodes, &edges[k].0);
        push_unique(&mut nodes, &edges[k].1);
        proof {
            let t = edges@.take(k + 1);
            assert forall|x: Seq<char>| #[trigger] seq_has(nodes@, x) <==> is_node(t, x) by {
                if is_node(t, x) {
                    let q = choose|q: int| 0 <= q < t.len() && ((#[trigger] t[q]).0@ == x || t[q].1@ == x);
                    if q < k {
                        assert(edges@.take(k as int)[q] == t[q]);
                        assert(is_node(edges@.take(k as int), x));
                    }
                }
                if is_node(edges@.take(k as int), x) {
                    let q = choose|q: int| 0 <= q < k && ((#[trigger] edges@.take(k as int)[q]).0@ == x || edges@.take(k as int)[q].1@ == x);
                    assert(t[q] == edges@.take(k as int)[q]);
                }
                if x == edges@[k as int].0@ || x == edges@[k as int].1@ {
                    assert(t[k as int] == edges@[k as int]);
                }
            }
        }
        k += 1;
    }
    assert(edges@.take(k as int) =~= edges@);
    nodes
}

/// Both ends of an edge are nodes.
proof fn lemma_edge_ends_are_nodes(edges: Seq<(String, String, u32)>, a: Seq<char>, b: Seq<char>)
    requires
        has_edge_key(edges, a, b),
    ensures
        is_node(edges, a),
        is_node(edges, b),
{
    let i = choose|i: int| 0 <= i < edges.len() && (#[trigger] edges[i]).0@ == a && edges[i].1@ == b;
    assert(edges[i].0@ == a);
}

/// Paths over the positions of the nodes are walks over the nodes, and back.
proof fn lemma_paths_are_walks(edges: Seq<(String, String, u32)>, nodes: Seq<String>, adj: Seq<Vec<bool>>, i: int, j: int)
    requires
        strings_unique(nodes),
        forall|x: Seq<char>| #[trigger] seq_has(nodes, x) <==> is_node(edges, x),
        adj.len() == nodes.len(),
        square(adj),
        forall|x: int, y: int| 0 <= x < nodes.len() && 0 <= y < nodes.len() ==> (adj[x]@[y] <==> has_edge_key(edges, nodes[x]@, nodes[y]@)),
        0 <= i < nodes.len(),
        0 <= j < nodes.len(),
    ensures
        reaches(arcs(adj), i, j) <==> in_closure(edges, nodes[i]@, nodes[j]@),
{
    let e = arcs(adj);
    if reaches(e, i, j) {
        let s = choose|s: Seq<int>| #[trigger] is_path(e, s) && s[0] == i && s[s.len() - 1] == j;
        assert forall|k: int| 0 <= k < s.len() implies 0 <= #[trigger] s[k] < nodes.len() by {
            if k > 0 {
                assert(arc_ok(e, s, k - 1));
            }
        }
        let w = Seq::new(s.len(), |k: int| nodes[s[k]]@);
        assert(seq_has(nodes, nodes[i]@));
        assert forall|k: int| 0 <= k < w.len() - 1 implies #[trigger] edge_step(edges, w, k) by {
            assert(arc_ok(e, s, k));
            assert(0 <= s[k] < nodes.len() && 0 <= s[k + 1] < nodes.len());
        }
        assert(is_edge_walk(edges, w));
    }
    if in_closure(edges, nodes[i]@, nodes[j]@) {
        let w = choose|w: Seq<Seq<char>>| #[trigger] is_edge_walk(edges, w) && w[0] == nodes[i]@ && w[w.len() - 1] == nodes[j]@;
        assert forall|k: int| 0 <= k < w.len() implies #[trigger] seq_has(nodes, w[k]) by {
            if k > 0 {
                assert(edge_step(edges, w, k - 1));
                lemma_edge_ends_are_nodes(edges, w[k - 1], w[k]);
            }
        }
        let s = Seq::new(w.len(), |k: int| choose|x: int| 0 <= x < nodes.len() && nodes[x]@ == w[k]);
        assert forall|k: int| 0 <= k < s.len() implies 0 <= #[trigger] s[k] < nodes.len() && nodes[s[k]]@ == w[k] by {
            assert(seq_has(nodes, w[k]));
        }
        assert forall|k: int| 0 <= k < s.len() - 1 implies #[trigger] arc_ok(e, s, k) by {
            assert(edge_step(edges, w, k));
            assert(0 <= s[k] < nodes.len() && 0 <= s[k + 1] < nodes.len());
            assert(nodes[s[k]]@ == w[k] && nodes[s[k + 1]]@ == w[k + 1]);
        }
        assert(0 <= s[0] < nodes.len() && nodes[s[0]]@ == w[0]);
        assert(s[0] == i);
        let last = s.len() - 1;
        assert(0 <= s[last] < nodes.len() && nodes[s[last]]@ == w[last]);
        assert(s[last] == j);
        assert(is_path(e, s));
    }
}

/// The closure of one graph, as pairs.
fn closure_of(edges: &Vec<(String, String, u32)>) -> (r: Vec<(String, String)>)
    ensures
        forall|a: Seq<char>, b: Seq<char>| #[trigger] pair_in(r@, a, b) <==> in_closure(edges@, a, b),
{
    let nodes = edge_nodes(edges);
    let n = nodes.len();
    let mut adj: Vec<Vec<bool>> = Vec::new();
    let mut i: usize = 0;
    while i < n
        invariant
            0 <= i <= n,
            n == nodes@.len(),
            adj@.len() == i,
            forall|x: int| 0 <= x < i ==> (#[trigger] adj@[x])@.len() == n,
            forall|x: int, y: int| 0 <= x < i && 0 <= y < n ==> (adj@[x]@[y] <==> has_edge_key(edges@, nodes@[x]@, nodes@[y]@)),
        decreases n - i,
    {
        let mut row: Vec<bool> = Vec::new();
        let mut j: usize = 0;
        while j < n
            invariant
                0 <= i < n,
                0 <= j <= n,
                n == nodes@.len(),
                row@.len() == j,
                forall|y: int| 0 <= y < j ==> (row@[y] <==> has_edge_key(edges@, nodes@[i as int]@, nodes@[y]@)),
            decreases n - j,
        {
            row.push(has_edge(edges, &nodes[i], &nodes[j]));
            j += 1;
        }
        adj.push(row);
        i += 1;
    }
    assert(square(adj@));
    let mut out: Vec<(String, String)> = Vec::new();
    let ghost mut idx: Seq<(int, int)> = Seq::empty();
    let mut i: usize = 0;
    while i < n
        invariant
            0 <= i <= n,
            n == nodes@.len(),
            adj@.len() == n,
            square(adj@),
            strings_unique(nodes@),
            forall|x: Seq<char>| #[trigger] seq_has(nodes@, x) <==> is_node(edges@, x),
            forall|x: int, y: int| 0 <= x < n && 0 <= y < n ==> (adj@[x]@[y] <==> has_edge_key(edges@, nodes@[x]@, nodes@[y]@)),
            idx.len() == out@.len(),
            forall|k: int| 0 <= k < out@.len() ==> 0 <= (#[trigger] idx[k]).0 < n && 0 <= idx[k].1 < n
                && out@[k].0@ == nodes@[idx[k].0]@ && out@[k].1@ == nodes@[idx[k].1]@ && reaches(arcs(adj@), idx[k].0, idx[k].1),
            forall|x: int, y: int| 0 <= x < i && 0 <= y < n && reaches(arcs(adj@), x, y)
                ==> #[trigger] pair_in(out@, nodes@[x]@, nodes@[y]@),
        decreases n - i,
    {
        let reach = reach_from(&adj, i);
        let mut j: usize = 0;
        while j < n
            invariant
                0 <= i < n,
                0 <= j <= n,
                n == nodes@.len(),
                adj@.len() == n,
                reach@.len() == n,
                forall|y: int| 0 <= y < n ==> (reach@[y] <==> reaches(arcs(adj@), i as int, y)),
                idx.len() == out@.len(),
                forall|k: int| 0 <= k < out@.len() ==> 0 <= (#[trigger] idx[k]).0 < n && 0 <= idx[k].1 < n
                    && out@[k].0@ == nodes@[idx[k].0]@ && out@[k].1@ == nodes@[idx[k].1]@ && reaches(arcs(adj@), idx[k].0, idx[k].1),
                forall|x: int, y: int| ((0 <= x < i && 0 <= y < n) || (x == i && 0 <= y < j)) && reaches(arcs(adj@), x, y)
                    ==> #[trigger] pair_in(out@, nodes@[x]@, nodes@[y]@),
            decreases n - j,
        {
            if reach[j] {
                let ghost before = out@;
                let ghost idx_before = idx;
                out.push((nodes[i].clone(), nodes[j].clone()));
                proof {
                    idx = idx.push((i as int, j as int));
                    let last = out@.len() - 1;
                    assert(out@[last].0@ == nodes@[i as int]@ && out@[last].1@ == nodes@[j as int]@);
                    assert forall|x: int, y: int| ((0 <= x < i && 0 <= y < n) || (x == i && 0 <= y < j + 1)) && reaches(arcs(adj@), x, y)
                        implies #[trigger] pair_in(out@, nodes@[x]@, nodes@[y]@) by {
                        if x == i && y == j {
                            assert(out@[last].0@ == nodes@[x]@ && out@[last].1@ == nodes@[y]@);
                        } else {
                            assert(pair_in(before, nodes@[x]@, nodes@[y]@));
                            let q = choose|q: int| 0 <= q < before.len() && (#[trigger] before[q]).0@ == nodes@[x]@ && before[q].1@ == nodes@[y]@;
                            assert(out@[q] == before[q]);
                        }
                    }
                    assert forall|k: int| 0 <= k < out@.len() implies 0 <= (#[trigger] idx[k]).0 < n && 0 <= idx[k].1 < n
                        && out@[k].0@ == nodes@[idx[k].0]@ && out@[k].1@ == nodes@[idx[k].1]@ && reaches(arcs(adj@), idx[k].0, idx[k].1) by {
                        if k < last {
                            assert(out@[k] == before[k]);
                            assert(idx[k] == idx_before[k]);
                        }
                    }
                }
            }
            j += 1;
        }
        i += 1;
    }
    proof {
        assert forall|a: Seq<char>, b: Seq<char>| #[trigger] pair_in(out@, a, b) <==> in_closure(edges@, a, b) by {
            if pair_in(out@, a, b) {
                let k = choose|k: int| 0 <= k < out@.len() && (#[trigger] out@[k]).0@ == a && out@[k].1@ == b;
                assert(0 <= idx[k].0 < n);
                lemma_paths_are_walks(edges@, nodes@, adj@, idx[k].0, idx[k].1);
            }
            if in_closure(edges@, a, b) {
                let w = choose|w: Seq<Seq<char>>| #[trigger] is_edge_walk(edges@, w) && w[0] == a && w[w.len() - 1] == b;
                assert(seq_has(nodes@, a));
                let x = choose|x: int| 0 <= x < nodes@.len() && (#[trigger] nodes@[x])@ == a;
                if w.len() > 1 {
                    assert(edge_step(edges@, w, w.len() - 2));
                    lemma_edge_ends_are_nodes(edges@, w[w.len() - 2], w[w.len() - 1]);
                }
                assert(seq_has(nodes@, b));
                let y = choose|y: int| 0 <= y < nodes@.len() && (#[trigger] nodes@[y])@ == b;
                lemma_paths_are_walks(edges@, nodes@, adj@, x, y);
                assert(pair_in(out@, nodes@[x]@, nodes@[y]@));
            }
        }
    }
    out
}

impl OCGraphRelations {
    /// The closure of each object type's graph, in the order of the graphs: the
    /// pairs of edge ends where a chain of edges (possibly none) leads from the
    /// first to the second.
    pub fn build_closure_from_dfgs(dfgs: &Vec<(String, ObjectTypeDfg)>) -> (r: Vec<(String, Vec<(String, String)>)>)
        ensures
            r@.len() == dfgs@.len(),
            forall|i: int| 0 <= i < r@.len() ==> (#[trigger] r@[i]).0@ == dfgs@[i].0@,
            forall|i: int, a: Seq<char>, b: Seq<char>| 0 <= i < r@.len() ==>
                (#[trigger] pair_in(r@[i].1@, a, b) <==> in_closure(dfgs@[i].1.edges@, a, b)),
    {
        let mut out: Vec<(String, Vec<(String, String)>)> = Vec::new();
        let mut i: usize = 0;
        while i < dfgs.len()
            invariant
                0 <= i <= dfgs@.len(),
                out@.len() == i,
                forall|k: int| 0 <= k < i ==> (#[trigger] out@[k]).0@ == dfgs@[k].0@,
                forall|k: int, a: Seq<char>, b: Seq<char>| 0 <= k < i ==>
                    (#[trigger] pair_in(out@[k].1@, a, b) <==> in_closure(dfgs@[k].1.edges@, a, b)),
            decreases dfgs@.len() - i,
        {
            let closure = closure_of(&dfgs[i].1.edges);
            out.push((dfgs[i].0.clone(), closure));
            i += 1;
        }
        out
    }
}

} // verus!
