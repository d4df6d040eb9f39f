//! Connected components of activities: the miner joins activities that must stay
//! in one part with a union-find structure and reads off its classes.
use vstd::prelude::*;
use petgraph::unionfind::UnionFind;

verus! {

#[verifier::external_type_specification]
#[verifier::external_body]
#[verifier::reject_recursive_types(K)]
pub struct ExUnionFind<K>(UnionFind<K>);

/// The representative that `find` reports for each element of the structure.
pub uninterp spec fn union_find_reps(uf: UnionFind<usize>) -> Seq<usize>;

/// `UnionFind::new`: `n` elements, each alone in its set (its own representative,
/// as the source sets `parent[i] = i`).
#[verifier::external_body]
fn union_find_new(n: usize) -> (r: UnionFind<usize>)
    ensures
        union_find_reps(r) == Seq::new(n as nat, |i: int| i as usize),
{
    UnionFind::new(n)
}

/// `UnionFind::union`: the sets of `x` and `y` become one; every other pair of
/// elements stays joined or apart as before. It panics for an index out of
/// bounds, which `requires` rules out.
#[verifier::external_body]
fn union_find_union(uf: &mut UnionFind<usize>, x: usize, y: usize)
    requires
        x < union_find_reps(*old(uf)).len(),
        y < union_find_reps(*old(uf)).len(),
    ensures
        union_find_reps(*final(uf)).len() == union_find_reps(*old(uf)).len(),
        forall|i: int, j: int| 0 <= i < union_find_reps(*old(uf)).len() && 0 <= j < union_find_reps(*old(uf)).len() ==>
            ((#[trigger] union_find_reps(*final(uf))[i] == #[trigger] union_find_reps(*final(uf))[j]) <==> (
                union_find_reps(*old(uf))[i] == union_find_reps(*old(uf))[j]
                || (union_find_reps(*old(uf))[i] == union_find_reps(*old(uf))[x as int]
                    && union_find_reps(*old(uf))[j] == union_find_reps(*old(uf))[y as int])
                || (union_find_reps(*old(uf))[i] == union_find_reps(*old(uf))[y as int]
                    && union_find_reps(*old(uf))[j] == union_find_reps(*old(uf))[x as int]))),
{
    uf.union(x, y);
}

/// `UnionFind::find`: the representative of `x`. It panics for an index out of
/// bounds, which `requires` rules out.
#[verifier::external_body]
fn union_find_find(uf: &UnionFind<usize>, x: usize) -> (r: usize)
    requires
        x < union_find_reps(*uf).len(),
    ensures
        r == union_find_reps(*uf)[x as int],
{
    uf.find(x)
}

/// `a` and `b` are joined by an edge of `e` in either direction.
pub open spec fn linked(e: spec_fn(int, int) -> bool, a: int, b: int) -> bool {
    e(a, b) || e(b, a)
}

/// Step `k` of `s` follows an edge.
pub open spec fn step_ok(e: spec_fn(int, int) -> bool, s: Seq<int>, k: int) -> bool {
    linked(e, s[k], s[k + 1])
}

/// `s` is a walk along the (undirected) edges of `e`.
pub open spec fn is_walk(e: spec_fn(int, int) -> bool, s: Seq<int>) -> bool {
    s.len() > 0 && forall|k: int| 0 <= k < s.len() - 1 ==> #[trigger] step_ok(e, s, k)
}

/// Some walk along `e` leads from `x` to `y`.
pub open spec fn connected(e: spec_fn(int, int) -> bool, x: int, y: int) -> bool {
    exists|s: Seq<int>| #[trigger] is_walk(e, s) && s[0] == x && s[s.len() - 1] == y
}

pub proof fn lemma_conn_refl(e: spec_fn(int, int) -> bool, x: int)
    ensures
        connected(e, x, x),
{
    let s = seq![x];
    assert(is_walk(e, s));
}

pub proof fn lemma_conn_edge(e: spec_fn(int, int) -> bool, x: int, y: int)
    requires
        linked(e, x, y),
    ensures
        connected(e, x, y),
{
    let s = seq![x, y];
    assert(step_ok(e, s, 0));
    assert(is_walk(e, s));
}

pub proof fn lemma_conn_sym(e: spec_fn(int, int) -> bool, x: int, y: int)
    requires
        connected(e, x, y),
    ensures
        connected(e, y, x),
{
    let s = choose|s: Seq<int>| #[trigger] is_walk(e, s) && s[0] == x && s[s.len() - 1] == y;
    let r = s.reverse();
    assert forall|k: int| 0 <= k < r.len() - 1 implies #[trigger] step_ok(e, r, k) by {
        let m = s.len() - 2 - k;
        assert(step_ok(e, s, m));
        assert(r[k] == s[m + 1] && r[k + 1] == s[m]);
    }
    assert(is_walk(e, r));
}

pub proof fn lemma_conn_trans(e: spec_fn(int, int) -> bool, x: int, y: int, z: int)
    requires
        connected(e, x, y),
        connected(e, y, z),
    ensures
        connected(e, x, z),
{
    let s1 = choose|s: Seq<int>| #[trigger] is_walk(e, s) && s[0] == x && s[s.len() - 1] == y;
    let s2 = choose|s: Seq<int>| #[trigger] is_walk(e, s) && s[0] == y && s[s.len() - 1] == z;
    let s = s1 + s2.drop_first();
    assert forall|k: int| 0 <= k < s.len() - 1 implies #[trigger] step_ok(e, s, k) by {
        if k < s1.len() - 1 {
            assert(step_ok(e, s1, k));
            assert(s[k] == s1[k] && s[k + 1] == s1[k + 1]);
        } else if k == s1.len() - 1 {
            assert(step_ok(e, s2, 0));
            assert(s[k] == s2[0] && s[k + 1] == s2[1]);
        } else {
            let m = k - s1.len() + 1;
            assert(step_ok(e, s2, m));
            assert(s[k] == s2[m] && s[k + 1] == s2[m + 1]);
        }
    }
    assert(is_walk(e, s));
    if s2.len() == 1 {
        assert(s[s.len() - 1] == s1[s1.len() - 1]);
    } else {
        assert(s[s.len() - 1] == s2[s2.len() - 1]);
    }
}

/// A walk along `e` plus the edge `(p, q)` either avoids that edge or passes it.
pub proof fn lemma_conn_split(e: spec_fn(int, int) -> bool, e2: spec_fn(int, int) -> bool, p: int, q: int, x: int, y: int)
    requires
        forall|a: int, b: int| #[trigger] e2(a, b) == (e(a, b) || (a == p && b == q)),
        connected(e2, x, y),
    ensures
        connected(e, x, y) || (connected(e, x, p) && connected(e, q, y)) || (connected(e, x, q) && connected(e, p, y)),
{
    let s = choose|s: Seq<int>| #[trigger] is_walk(e2, s) && s[0] == x && s[s.len() - 1] == y;
    lemma_walk_split(e, e2, p, q, s);
}

proof fn lemma_walk_split(e: spec_fn(int, int) -> bool, e2: spec_fn(int, int) -> bool, p: int, q: int, s: Seq<int>)
    requires
        forall|a: int, b: int| #[trigger] e2(a, b) == (e(a, b) || (a == p && b == q)),
        is_walk(e2, s),
    ensures
        ({
            let x = s[0];
            let y = s[s.len() - 1];
            connected(e, x, y) || (connected(e, x, p) && connected(e, q, y)) || (connected(e, x, q) && connected(e, p, y))
        }),
    decreases s.len(),
{
    let x = s[0];
    if s.len() == 1 {
        lemma_conn_refl(e, x);
    } else {
        let t = s.drop_last();
        assert forall|k: int| 0 <= k < t.len() - 1 implies #[trigger] step_ok(e2, t, k) by {
            assert(step_ok(e2, s, k));
        }
        assert(is_walk(e2, t));
        lemma_walk_split(e, e2, p, q, t);
        let u = t[t.len() - 1];
        let y = s[s.len() - 1];
        assert(step_ok(e2, s, s.len() - 2));
        assert(linked(e2, u, y));
        if linked(e, u, y) {
            lemma_conn_edge(e, u, y);
            if connected(e, x, u) {
                lemma_conn_trans(e, x, u, y);
            } else if connected(e, x, p) && connected(e, q, u) {
                lemma_conn_trans(e, q, u, y);
            } else {
                lemma_conn_trans(e, p, u, y);
            }
        } else {
            // the last step is the new edge
            lemma_conn_refl(e, y);
            lemma_conn_refl(e, u);
            if u == p && y == q {
                if connected(e, x, u) {
                } else if connected(e, x, p) && connected(e, q, u) {
                    // x ~ p, q ~ p: x ~ q
                    lemma_conn_sym(e, q, u);
                    lemma_conn_trans(e, x, p, q);
                } else {
                    assert(connected(e, x, y));
                }
            } else {
                assert(u == q && y == p);
                if connected(e, x, u) {
                } else if connected(e, x, p) && connected(e, q, u) {
                    lemma_conn_trans(e, x, p, p);
                } else {
                    lemma_conn_sym(e, p, u);
                    lemma_conn_trans(e, x, q, p);
                }
            }
        }
    }
}

/// Walks along `e1` are walks along `e2` where `e2` holds every edge of `e1`.
pub proof fn lemma_conn_mono(e1: spec_fn(int, int) -> bool, e2: spec_fn(int, int) -> bool, x: int, y: int)
    requires
        forall|a: int, b: int| #[trigger] e1(a, b) ==> e2(a, b),
        connected(e1, x, y),
    ensures
        connected(e2, x, y),
{
    let s = choose|s: Seq<int>| #[trigger] is_walk(e1, s) && s[0] == x && s[s.len() - 1] == y;
    assert forall|k: int| 0 <= k < s.len() - 1 implies #[trigger] step_ok(e2, s, k) by {
        assert(step_ok(e1, s, k));
    }
    assert(is_walk(e2, s));
}

/// Every row of the matrix is as long as the matrix.
pub open spec fn square(adj: Seq<Vec<bool>>) -> bool {
    forall|i: int| 0 <= i < adj.len() ==> (#[trigger] adj[i])@.len() == adj.len()
}

/// The pairs `a < b` that the matrix marks.
pub open spec fn marked_edges(adj: Seq<Vec<bool>>) -> spec_fn(int, int) -> bool {
    |a: int, b: int| 0 <= a < b < adj.len() && adj[a]@[b]
}

/// The marked pairs that come before `(bi, bj)` in row-major order.
pub open spec fn edges_before(adj: Seq<Vec<bool>>, bi: int, bj: int) -> spec_fn(int, int) -> bool {
    |a: int, b: int| 0 <= a < b < adj.len() && adj[a]@[b] && (a < bi || (a == bi && b < bj))
}

/// Two elements share a representative exactly when `e` connects them.
pub open spec fn classes_match(reps: Seq<usize>, e: spec_fn(int, int) -> bool, n: int) -> bool {
    &&& reps.len() == n
    &&& forall|x: int, y: int| #![trigger reps[x], reps[y]] #![trigger connected(e, x, y)]
        0 <= x < n && 0 <= y < n ==> (reps[x] == reps[y] <==> connected(e, x, y))
}

proof fn lemma_conn_empty(e: spec_fn(int, int) -> bool, x: int, y: int)
    requires
        forall|a: int, b: int| !#[trigger] e(a, b),
        connected(e, x, y),
    ensures
        x == y,
{
    let s = choose|s: Seq<int>| #[trigger] is_walk(e, s) && s[0] == x && s[s.len() - 1] == y;
    if s.len() > 1 {
        assert(step_ok(e, s, 0));
    }
}

proof fn lemma_match_same(reps: Seq<usize>, e0: spec_fn(int, int) -> bool, e1: spec_fn(int, int) -> bool, n: int)
    requires
        classes_match(reps, e0, n),
        forall|a: int, b: int| #[trigger] e0(a, b) == #[trigger] e1(a, b),
    ensures
        classes_match(reps, e1, n),
{
    assert forall|x: int, y: int| 0 <= x < n && 0 <= y < n implies (reps[x] == reps[y] <==> connected(e1, x, y)) by {
        if connected(e1, x, y) {
            lemma_conn_mono(e1, e0, x, y);
        }
        if connected(e0, x, y) {
            lemma_conn_mono(e0, e1, x, y);
        }
    }
}

proof fn lemma_union_step(reps: Seq<usize>, reps2: Seq<usize>, e0: spec_fn(int, int) -> bool, e1: spec_fn(int, int) -> bool, p: int, q: int, n: int)
    requires
        classes_match(reps, e0, n),
        0 <= p < n,
        0 <= q < n,
        forall|a: int, b: int| #[trigger] e1(a, b) == (e0(a, b) || (a == p && b == q)),
        reps2.len() == n,
        forall|i: int, j: int| 0 <= i < n && 0 <= j < n ==>
            ((#[trigger] reps2[i] == #[trigger] reps2[j]) <==> (reps[i] == reps[j]
                || (reps[i] == reps[p] && reps[j] == reps[q]) || (reps[i] == reps[q] && reps[j] == reps[p]))),
    ensures
        classes_match(reps2, e1, n),
{
    assert forall|a: int, b: int| #[trigger] e0(a, b) implies e1(a, b) by {}
    lemma_conn_edge(e1, p, q);
    assert forall|x: int, y: int| 0 <= x < n && 0 <= y < n implies (reps2[x] == reps2[y] <==> connected(e1, x, y)) by {
        if connected(e1, x, y) {
            lemma_conn_split(e0, e1, p, q, x, y);
            if connected(e0, x, y) {
            } else if connected(e0, x, p) && connected(e0, q, y) {
                assert(reps[x] == reps[p] && reps[q] == reps[y]);
            } else {
                assert(reps[x] == reps[q] && reps[p] == reps[y]);
            }
        }
        if reps2[x] == reps2[y] {
            if reps[x] == reps[y] {
                lemma_conn_mono(e0, e1, x, y);
            } else if reps[x] == reps[p] && reps[y] == reps[q] {
                assert(connected(e0, x, p));
                assert(connected(e0, q, y));
                lemma_conn_mono(e0, e1, x, p);
                lemma_conn_mono(e0, e1, q, y);
                lemma_conn_trans(e1, x, p, q);
                lemma_conn_trans(e1, x, q, y);
            } else {
                assert(connected(e0, x, q));
                assert(connected(e0, p, y));
                lemma_conn_mono(e0, e1, x, q);
                lemma_conn_mono(e0, e1, p, y);
                lemma_conn_sym(e1, p, q);
                lemma_conn_trans(e1, x, q, p);
                lemma_conn_trans(e1, x, p, y);
            }
        }
    }
}

/// Joins `i` and `j` for every marked pair `i < j`; afterwards two elements share
/// a representative exactly when the marked pairs connect them.
pub fn union_components(adj: &Vec<Vec<bool>>) -> (uf: UnionFind<usize>)
    requires
        square(adj@),
    ensures
        classes_match(union_find_reps(uf), marked_edges(adj@), adj@.len() as int),
{
    let n = adj.len();
    let ghost m = adj@;
    let mut uf = union_find_new(n);
    proof {
        let e = edges_before(m, 0, 0);
        assert forall|x: int, y: int| 0 <= x < n && 0 <= y < n implies
            (union_find_reps(uf)[x] == union_find_reps(uf)[y] <==> connected(e, x, y)) by {
            if connected(e, x, y) {
                lemma_conn_empty(e, x, y);
            }
            if x == y {
                lemma_conn_refl(e, x);
            }
        }
    }
    let mut i: usize = 0;
    while i < n
        invariant
            0 <= i <= n,
            n == m.len(),
            m == adj@,
            square(m),
            classes_match(union_find_reps(uf), edges_before(m, i as int, 0), n as int),
        decreases n - i,
    {
        proof {
            lemma_match_same(union_find_reps(uf), edges_before(m, i as int, 0), edges_before(m, i as int, i + 1), n as int);
        }
        let mut j: usize = i + 1;
        while j < n
            invariant
                0 <= i < n,
                i + 1 <= j <= n,
                n == m.len(),
                m == adj@,
                square(m),
                classes_match(union_find_reps(uf), edges_before(m, i as int, j as int), n as int),
            decreases n - j,
        {
            let ghost reps = union_find_reps(uf);
            assert(m[i as int]@.len() == n);
            if adj[i][j] {
                union_find_union(&mut uf, i, j);
                proof {
                    lemma_union_step(reps, union_find_reps(uf), edges_before(m, i as int, j as int),
                        edges_before(m, i as int, j + 1), i as int, j as int, n as int);
                }
            } else {
                proof {
                    lemma_match_same(reps, edges_before(m, i as int, j as int), edges_before(m, i as int, j + 1), n as int);
                }
            }
            j += 1;
        }
        proof {
            lemma_match_same(union_find_reps(uf), edges_before(m, i as int, n as int), edges_before(m, i + 1, 0), n as int);
        }
        i += 1;
    }
    proof {
        lemma_match_same(union_find_reps(uf), edges_before(m, n as int, 0), marked_edges(m), n as int);
    }
    uf
}

/// The elements `0..n` split into the classes of `e`: every group is non-empty
/// and increasing, its members are connected to its first member, the groups are
/// ordered by first member, first members of different groups are not connected,
/// and every element lies in some group.
pub open spec fn is_component_grouping(groups: Seq<Vec<usize>>, e: spec_fn(int, int) -> bool, n: int) -> bool {
    &&& forall|g: int| 0 <= g < groups.len() ==> (#[trigger] groups[g])@.len() > 0
    &&& forall|g: int, k: int| 0 <= g < groups.len() && 0 <= k < groups[g]@.len() ==>
        (#[trigger] groups[g]@[k]) < n && connected(e, groups[g]@[k] as int, groups[g]@[0] as int)
    &&& forall|g: int, k1: int, k2: int| 0 <= g < groups.len() && 0 <= k1 < k2 < groups[g]@.len() ==>
        #[trigger] groups[g]@[k1] < #[trigger] groups[g]@[k2]
    &&& forall|g1: int, g2: int| 0 <= g1 < g2 < groups.len() ==>
        (#[trigger] groups[g1])@[0] < (#[trigger] groups[g2])@[0] && !connected(e, groups[g1]@[0] as int, groups[g2]@[0] as int)
    &&& forall|x: int| 0 <= x < n ==> #[trigger] grouped(groups, x)
}

/// Element `x` lies in some group.
pub open spec fn grouped(groups: Seq<Vec<usize>>, x: int) -> bool {
    exists|g: int, k: int| 0 <= g < groups.len() && 0 <= k < groups[g]@.len() && #[trigger] groups[g]@[k] == x
}

/// The classes of the structure as index groups, in order of their first element.
pub fn group_indices(uf: &UnionFind<usize>, n: usize, e: Ghost<spec_fn(int, int) -> bool>) -> (r: Vec<Vec<usize>>)
    requires
        classes_match(union_find_reps(*uf), e@, n as int),
    ensures
        is_component_grouping(r@, e@, n as int),
{
    let ghost reps = union_find_reps(*uf);
    let mut groups: Vec<Vec<usize>> = Vec::new();
    let mut roots: Vec<usize> = Vec::new();
    let mut idx: usize = 0;
    while idx < n
        invariant
            0 <= idx <= n,
            reps == union_find_reps(*uf),
            classes_match(reps, e@, n as int),
            groups@.len() == roots@.len(),
            forall|g: int| 0 <= g < groups@.len() ==> (#[trigger] groups@[g])@.len() > 0 && roots@[g] == reps[groups@[g]@[0] as int],
            forall|g: int, k: int| 0 <= g < groups@.len() && 0 <= k < groups@[g]@.len() ==>
                (#[trigger] groups@[g]@[k]) < idx && reps[groups@[g]@[k] as int] == roots@[g],
            forall|g: int, k1: int, k2: int| 0 <= g < groups@.len() && 0 <= k1 < k2 < groups@[g]@.len() ==>
                #[trigger] groups@[g]@[k1] < #[trigger] groups@[g]@[k2],
            forall|g1: int, g2: int| 0 <= g1 < g2 < groups@.len() ==>
                (#[trigger] groups@[g1])@[0] < (#[trigger] groups@[g2])@[0] && roots@[g1] != roots@[g2],
            forall|x: int| 0 <= x < idx ==> #[trigger] grouped(groups@, x),
        decreases n - idx,
    {
        let root = union_find_find(uf, idx);
        let mut g: usize = 0;
        let mut found = false;
        while g < roots.len()
            invariant
                0 <= g <= roots@.len(),
                !found,
                forall|h: int| 0 <= h < g ==> roots@[h] != root,
            decreases roots@.len() - g,
        {
            if roots[g] == root {
                found = true;
                break;
            }
            g += 1;
        }
        let ghost old_groups = groups@;
        if found {
            let mut grp = groups.remove(g);
            grp.push(idx);
            groups.insert(g, grp);
            proof {
                assert forall|h: int| 0 <= h < groups@.len() && h != g implies groups@[h] == old_groups[h] by {}
                assert(groups@[g as int]@ == old_groups[g as int]@.push(idx));
                assert forall|x: int| 0 <= x < idx + 1 implies #[trigger] grouped(groups@, x) by {
                    if x < idx {
                        assert(grouped(old_groups, x));
                        let (h, k) = choose|h: int, k: int| 0 <= h < old_groups.len() && 0 <= k < old_groups[h]@.len()
                            && #[trigger] old_groups[h]@[k] == x;
                        if h == g {
                            assert(groups@[h]@[k] == old_groups[h]@[k]);
                        } else {
                            assert(groups@[h] == old_groups[h]);
                        }
                        assert(groups@[h]@[k] == x);
                    } else {
                        assert(groups@[g as int]@[old_groups[g as int]@.len() as int] == x);
                    }
                }
            }
        } else {
            let mut grp: Vec<usize> = Vec::new();
            grp.push(idx);
            groups.push(grp);
            roots.push(root);
            proof {
                assert forall|x: int| 0 <= x < idx + 1 implies #[trigger] grouped(groups@, x) by {
                    if x < idx {
                        assert(grouped(old_groups, x));
                        let (h, k) = choose|h: int, k: int| 0 <= h < old_groups.len() && 0 <= k < old_groups[h]@.len()
                            && #[trigger] old_groups[h]@[k] == x;
                        assert(groups@[h] == old_groups[h]);
                        assert(groups@[h]@[k] == x);
                    } else {
                        assert(groups@[old_groups.len() as int]@[0] == x);
                    }
                }
            }
        }
        idx += 1;
    }
    proof {
        assert forall|g: int, k: int| 0 <= g < groups@.len() && 0 <= k < groups@[g]@.len() implies
            (#[trigger] groups@[g]@[k]) < n && connected(e@, groups@[g]@[k] as int, groups@[g]@[0] as int) by {
            assert(reps[groups@[g]@[k] as int] == reps[groups@[g]@[0] as int]);
        }
        assert forall|g1: int, g2: int| 0 <= g1 < g2 < groups@.len() implies
            (#[trigger] groups@[g1])@[0] < (#[trigger] groups@[g2])@[0] && !connected(e@, groups@[g1]@[0] as int, groups@[g2]@[0] as int) by {
            assert(reps[groups@[g1]@[0] as int] != reps[groups@[g2]@[0] as int]);
        }
    }
    groups
}

/// The arcs `a -> b` that the matrix marks.
pub open spec fn arcs(adj: Seq<Vec<bool>>) -> spec_fn(int, int) -> bool {
    |a: int, b: int| 0 <= a < adj.len() && 0 <= b < adj.len() && adj[a]@[b]
}

/// Step `k` of `s` follows an arc.
pub open spec fn arc_ok(e: spec_fn(int, int) -> bool, s: Seq<int>, k: int) -> bool {
    e(s[k], s[k + 1])
}

/// `s` is a path along the (directed) arcs of `e`.
pub open spec fn is_path(e: spec_fn(int, int) -> bool, s: Seq<int>) -> bool {
    s.len() > 0 && forall|k: int| 0 <= k < s.len() - 1 ==> #[trigger] arc_ok(e, s, k)
}

/// Some path along `e` leads from `x` to `y` (a path of no arcs from `x` to `x` included).
pub open spec fn reaches(e: spec_fn(int, int) -> bool, x: int, y: int) -> bool {
    exists|s: Seq<int>| #[trigger] is_path(e, s) && s[0] == x && s[s.len() - 1] == y
}

pub proof fn lemma_reach_refl(e: spec_fn(int, int) -> bool, x: int)
    ensures
        reaches(e, x, x),
{
    assert(is_path(e, seq![x]));
}

pub proof fn lemma_reach_extend(e: spec_fn(int, int) -> bool, x: int, v: int, w: int)
    requires
        reaches(e, x, v),
        e(v, w),
    ensures
        reaches(e, x, w),
{
    let s = choose|s: Seq<int>| #[trigger] is_path(e, s) && s[0] == x && s[s.len() - 1] == v;
    let t = s.push(w);
    assert forall|k: int| 0 <= k < t.len() - 1 implies #[trigger] arc_ok(e, t, k) by {
        if k < s.len() - 1 {
            assert(arc_ok(e, s, k));
        }
    }
    assert(is_path(e, t));
}

/// A set closed under the arcs holds the end of every path that starts in it.
proof fn lemma_closed_path(e: spec_fn(int, int) -> bool, visited: Seq<bool>, s: Seq<int>)
    requires
        is_path(e, s),
        0 <= s[0] < visited.len(),
        visited[s[0]],
        forall|v: int, w: int| #![trigger e(v, w)] 0 <= v < visited.len() && visited[v] && e(v, w)
            ==> 0 <= w < visited.len() && visited[w],
    ensures
        0 <= s[s.len() - 1] < visited.len(),
        visited[s[s.len() - 1]],
    decreases s.len(),
{
    if s.len() > 1 {
        let t = s.drop_last();
        assert forall|k: int| 0 <= k < t.len() - 1 implies #[trigger] arc_ok(e, t, k) by {
            assert(arc_ok(e, s, k));
        }
        lemma_closed_path(e, visited, t);
        assert(arc_ok(e, s, s.len() - 2));
    }
}

/// Whether `v` is on the stack.
pub open spec fn on_stack(stack: Seq<usize>, v: int) -> bool {
    exists|k: int| 0 <= k < stack.len() && stack[k] == v
}

/// The nodes that paths along the marked arcs reach from `src`.
pub fn reach_from(adj: &Vec<Vec<bool>>, src: usize) -> (r: Vec<bool>)
    requires
        square(adj@),
        src < adj@.len(),
    ensures
        r@.len() == adj@.len(),
        forall|j: int| 0 <= j < adj@.len() ==> (r@[j] <==> reaches(arcs(adj@), src as int, j)),
{
    let n = adj.len();
    let ghost m = adj@;
    let ghost e = arcs(m);
    let mut visited: Vec<bool> = Vec::new();
    let mut k: usize = 0;
    while k < n
        invariant
            0 <= k <= n,
            visited@.len() == k,
            forall|q: int| 0 <= q < k ==> !visited@[q],
        decreases n - k,
    {
        visited.push(false);
        k += 1;
    }
    visited.set(src, true);
    let mut stack: Vec<usize> = Vec::new();
    stack.push(src);
    let ghost mut seen: Set<int> = set![src as int];
    proof {
        lemma_reach_refl(e, src as int);
        assert(stack@[0] == src);
        assert(on_stack(stack@, src as int));
        assert forall|v: int| 0 <= v < n && visited@[v] implies v == src by {}
        vstd::set_lib::lemma_int_range(0, n as int);
        assert(seen.subset_of(vstd::set_lib::set_int_range(0, n as int)));
        vstd::set_lib::lemma_len_subset(seen, vstd::set_lib::set_int_range(0, n as int));
    }
    while stack.len() > 0
        invariant
            n == m.len(),
            m == adj@,
            e == arcs(m),
            square(m),
            src < n,
            visited@.len() == n,
            visited@[src as int],
            forall|v: int| 0 <= v < n ==> (visited@[v] <==> seen.contains(v)),
            seen.finite(),
            seen.len() <= n,
            forall|v: int| #![trigger seen.contains(v)] seen.contains(v) ==> 0 <= v < n,
            forall|v: int| 0 <= v < n && visited@[v] ==> reaches(e, src as int, v),
            forall|k: int| 0 <= k < stack@.len() ==> (#[trigger] stack@[k]) < n && visited@[stack@[k] as int],
            stack@.no_duplicates(),
            forall|v: int, w: int| #![trigger e(v, w)] 0 <= v < n && visited@[v] && !on_stack(stack@, v) && e(v, w) ==> visited@[w],
        decreases n - seen.len(), stack@.len(),
    {
        let ghost old_stack = stack@;
        let v = stack.pop().unwrap();
        let ghost stack_after_pop = stack@;
        proof {
            assert(old_stack == stack@.push(v));
            assert forall|x: int| on_stack(old_stack, x) implies on_stack(stack@, x) || x == v by {
                let k = choose|k: int| 0 <= k < old_stack.len() && old_stack[k] == x;
                if k < stack@.len() {
                    assert(stack@[k] == x);
                }
            }
            assert(!on_stack(stack@, v as int)) by {
                if on_stack(stack@, v as int) {
                    let k = choose|k: int| 0 <= k < stack@.len() && stack@[k] == v;
                    let old_stack = stack@.push(v);
                    assert(old_stack[k] == old_stack[old_stack.len() - 1]);
                }
            }
        }
        let ghost seen_before = seen;
        assert(m[v as int]@.len() == n);
        let mut w: usize = 0;
        while w < n
            invariant
                0 <= w <= n,
                n == m.len(),
                m == adj@,
                e == arcs(m),
                square(m),
                v < n,
                visited@[v as int],
                src < n,
                visited@.len() == n,
                visited@[src as int],
                forall|x: int| 0 <= x < n ==> (visited@[x] <==> seen.contains(x)),
                seen.finite(),
                seen_before.subset_of(seen),
                seen.len() <= n,
                forall|x: int| #![trigger seen.contains(x)] seen.contains(x) ==> 0 <= x < n,
                forall|x: int| 0 <= x < n && visited@[x] ==> reaches(e, src as int, x),
                forall|k: int| 0 <= k < stack@.len() ==> (#[trigger] stack@[k]) < n && visited@[stack@[k] as int],
                stack@.no_duplicates(),
                !on_stack(stack@, v as int),
                forall|x: int, y: int| #![trigger e(x, y)] 0 <= x < n && visited@[x] && !on_stack(stack@, x) && x != v && e(x, y) ==> visited@[y],
                forall|y: int| 0 <= y < w && e(v as int, y) ==> visited@[y],
                seen.len() > seen_before.len() || stack@.len() <= stack_after_pop.len(),
            decreases n - w,
        {
            if adj[v][w] && !visited[w] {
                proof {
                    lemma_reach_extend(e, src as int, v as int, w as int);
                    assert(!seen.contains(w as int));
                }
                visited.set(w, true);
                let ghost prev = stack@;
                stack.push(w);
                proof {
                    let seen_prev = seen;
                    seen = seen.insert(w as int);
                    assert(seen.len() == seen_prev.len() + 1);
                    vstd::set_lib::lemma_len_subset(seen_before, seen_prev);
                    vstd::set_lib::lemma_int_range(0, n as int);
                    assert(seen.subset_of(vstd::set_lib::set_int_range(0, n as int)));
                    vstd::set_lib::lemma_len_subset(seen, vstd::set_lib::set_int_range(0, n as int));
                    assert forall|x: int| on_stack(stack@, x) <==> (on_stack(prev, x) || x == w) by {
                        if on_stack(stack@, x) {
                            let k = choose|k: int| 0 <= k < stack@.len() && stack@[k] == x;
                            if k < prev.len() {
                                assert(prev[k] == x);
                            }
                        }
                        if on_stack(prev, x) {
                            let k = choose|k: int| 0 <= k < prev.len() && prev[k] == x;
                            assert(stack@[k] == x);
                        }
                        if x == w {
                            assert(stack@[prev.len() as int] == x);
                        }
                    }
                    assert(stack@.no_duplicates()) by {
                        assert forall|a: int, b: int| 0 <= a < stack@.len() && 0 <= b < stack@.len() && a != b implies stack@[a] != stack@[b] by {
                            if a < prev.len() && b < prev.len() {
                            } else if a < prev.len() {
                                assert(visited@[prev[a] as int] || prev[a] == w);
                            } else if b < prev.len() {
                            }
                        }
                    }
                }
            }
            w += 1;
        }
        proof {
            vstd::set_lib::lemma_len_subset(seen_before, seen);
            assert(n - seen.len() < n - seen_before.len() || (n - seen.len() == n - seen_before.len() && stack@.len() < old_stack.len()));
        }
    }
    proof {
        assert forall|j: int| 0 <= j < n implies (visited@[j] <==> reaches(e, src as int, j)) by {
            if reaches(e, src as int, j) {
                let s = choose|s: Seq<int>| #[trigger] is_path(e, s) && s[0] == src && s[s.len() - 1] == j;
                assert forall|v: int, w: int| #![trigger e(v, w)] 0 <= v < visited@.len() && visited@[v] && e(v, w)
                    implies 0 <= w < visited@.len() && visited@[w] by {
                    assert(!on_stack(stack@, v));
                }
                lemma_closed_path(e, visited@, s);
            }
        }
    }
    visited
}

/// In a component grouping every element lies in exactly one group, at one position.
pub proof fn lemma_grouping_partitions(groups: Seq<Vec<usize>>, e: spec_fn(int, int) -> bool, n: int, g1: int, k1: int, g2: int, k2: int)
    requires
        is_component_grouping(groups, e, n),
        0 <= g1 < groups.len(),
        0 <= g2 < groups.len(),
        0 <= k1 < groups[g1]@.len(),
        0 <= k2 < groups[g2]@.len(),
        groups[g1]@[k1] == groups[g2]@[k2],
    ensures
        g1 == g2,
        k1 == k2,
{
    let x = groups[g1]@[k1] as int;
    if g1 != g2 {
        assert(connected(e, x, groups[g1]@[0] as int));
        assert(connected(e, x, groups[g2]@[0] as int));
        lemma_conn_sym(e, x, groups[g1]@[0] as int);
        lemma_conn_trans(e, groups[g1]@[0] as int, x, groups[g2]@[0] as int);
        if g1 < g2 {
            assert(!connected(e, groups[g1]@[0] as int, groups[g2]@[0] as int));
        } else {
            lemma_conn_sym(e, groups[g1]@[0] as int, groups[g2]@[0] as int);
            assert(!connected(e, groups[g2]@[0] as int, groups[g1]@[0] as int));
        }
    } else if k1 < k2 {
        assert(groups[g1]@[k1] < groups[g1]@[k2]);
    } else if k2 < k1 {
        assert(groups[g1]@[k2] < groups[g1]@[k1]);
    }
}

/// Elements of different groups are not connected, so no pair of them is linked:
/// the groups are the connected components.
pub proof fn lemma_grouping_separates(groups: Seq<Vec<usize>>, e: spec_fn(int, int) -> bool, n: int, g1: int, k1: int, g2: int, k2: int)
    requires
        is_component_grouping(groups, e, n),
        0 <= g1 < groups.len(),
        0 <= g2 < groups.len(),
        g1 != g2,
        0 <= k1 < groups[g1]@.len(),
        0 <= k2 < groups[g2]@.len(),
    ensures
        !connected(e, groups[g1]@[k1] as int, groups[g2]@[k2] as int),
        !linked(e, groups[g1]@[k1] as int, groups[g2]@[k2] as int),
{
    let x = groups[g1]@[k1] as int;
    let y = groups[g2]@[k2] as int;
    let f1 = groups[g1]@[0] as int;
    let f2 = groups[g2]@[0] as int;
    assert(connected(e, x, f1));
    assert(connected(e, y, f2));
    if connected(e, x, y) {
        lemma_conn_sym(e, x, f1);
        lemma_conn_trans(e, f1, x, y);
        lemma_conn_trans(e, f1, y, f2);
        if g1 < g2 {
            assert(!connected(e, f1, f2));
        } else {
            lemma_conn_sym(e, f1, f2);
            assert(!connected(e, f2, f1));
        }
    }
    if linked(e, x, y) {
        lemma_conn_edge(e, x, y);
    }
}

} // verus!
