//! Helpers for extending an object-centric process tree with identity relations:
//! activity sets of subtrees, candidate type sets, and wrapping subtrees in an
//! identity-relation operator.
use vstd::prelude::*;
use crate::identity_relations::check_relation::Relation;
use crate::ocim::model::{contains_string, seq_has};
use crate::ocpn_conversion::visible;
use crate::ocpt::{IdentityRelation, IdentityRelationKind, OCPTLeafLabel, OCPTNode, OCPTOperator, OTree, OpKind};
use crate::text::{insert_sorted, lemma_sorted_of, lemma_sorted_strict_unique, sorted_of, sorted_strict, union_into, views};

verus! {

/// Adds the activities of the subtree to the ordered set `out`.
pub fn collect_activities(node: &OCPTNode, out: &mut Vec<String>)
    requires
        sorted_strict(old(out)@),
    ensures
        sorted_strict(final(out)@),
        forall|a: Seq<char>| #[trigger] seq_has(final(out)@, a) <==> (seq_has(old(out)@, a) || visible(*node, a)),
    decreases node,
{
    let ghost before = out@;
    match node {
        OCPTNode::Leaf(leaf) => {
            if let OCPTLeafLabel::Activity(activity) = &leaf.activity_label {
                insert_sorted(out, activity);
            }
        },
        OCPTNode::Operator(op) => {
            let mut k: usize = 0;
            while k < op.children.len()
                invariant
                    0 <= k <= op.children@.len(),
                    *node == OCPTNode::Operator(*op),
                    sorted_strict(out@),
                    forall|a: Seq<char>| #[trigger] seq_has(out@, a) <==> (seq_has(before, a)
                        || exists|i: int| 0 <= i < k && visible(#[trigger] op.children@[i], a)),
                decreases op.children@.len() - k,
            {
                collect_activities(&op.children[k], out);
                proof {
                    assert forall|a: Seq<char>| #[trigger] seq_has(out@, a) <==> (seq_has(before, a)
                        || exists|i: int| 0 <= i < k + 1 && visible(#[trigger] op.children@[i], a)) by {
                        if exists|i: int| 0 <= i < k + 1 && visible(#[trigger] op.children@[i], a) {
                            let i = choose|i: int| 0 <= i < k + 1 && visible(#[trigger] op.children@[i], a);
                            if i < k {
                                assert(exists|i2: int| 0 <= i2 < k && visible(#[trigger] op.children@[i2], a));
                            }
                        }
                        if exists|i: int| 0 <= i < k && visible(#[trigger] op.children@[i], a) {
                            let i = choose|i: int| 0 <= i < k && visible(#[trigger] op.children@[i], a);
                            assert(exists|i2: int| 0 <= i2 < k + 1 && visible(#[trigger] op.children@[i2], a));
                        }
                    }
                }
                k += 1;
            }
        },
    }
}

/// The object types of the relations, each once, in order of first appearance.
pub open spec fn types_in_order(rs: Seq<Relation>, n: int) -> Seq<Seq<char>>
    decreases n,
{
    if n <= 0 {
        Seq::empty()
    } else {
        let prev = types_in_order(rs, n - 1);
        if prev.contains(rs[n - 1].4@) { prev } else { prev.push(rs[n - 1].4@) }
    }
}

/// One singleton candidate set per object type of the relations, in order of
/// first appearance.
pub fn build_candidates(relations: &Vec<Relation>) -> (r: Vec<Vec<String>>)
    ensures
        r@.len() == types_in_order(relations@, relations@.len() as int).len(),
        forall|i: int| 0 <= i < r@.len() ==> (#[trigger] r@[i])@.len() == 1
            && r@[i]@[0]@ == types_in_order(relations@, relations@.len() as int)[i],
{
    let ghost rs = relations@;
    let mut seen: Vec<String> = Vec::new();
    let mut out: Vec<Vec<String>> = Vec::new();
    let mut n: usize = 0;
    while n < relations.len()
        invariant
            0 <= n <= rs.len(),
            rs == relations@,
            views(seen@) == types_in_order(rs, n as int),
            out@.len() == seen@.len(),
            forall|i: int| 0 <= i < out@.len() ==> (#[trigger] out@[i])@.len() == 1 && out@[i]@[0]@ == seen@[i]@,
        decreases rs.len() - n,
    {
        let otype = &relations[n].4;
        let ghost prev = types_in_order(rs, n as int);
        let known = contains_string(&seen, otype);
        proof {
            if known {
                let k = choose|k: int| 0 <= k < seen@.len() && (#[trigger] seen@[k])@ == otype@;
                assert(views(seen@)[k] == otype@);
                assert(prev.contains(otype@));
            } else {
                if prev.contains(otype@) {
                    let k = choose|k: int| 0 <= k < prev.len() && prev[k] == otype@;
                    assert(seen@[k]@ == otype@);
                }
            }
        }
        if !known {
            seen.push(otype.clone());
            let mut single: Vec<String> = Vec::new();
            single.push(otype.clone());
            out.push(single);
            proof {
                assert(views(seen@) =~= prev.push(otype@));
            }
        }
        n += 1;
    }
    out
}

/// The strings of the set, sorted and without repetitions.
pub fn set_to_sorted_vec(set: &Vec<String>) -> (r: Vec<String>)
    ensures
        sorted_strict(r@),
        forall|a: Seq<char>| #[trigger] seq_has(r@, a) <==> seq_has(set@, a),
{
    let mut out: Vec<String> = Vec::new();
    union_into(&mut out, set);
    out
}

/// An identity-relation operator over `node` between the type sets `left` and `right`.
pub fn wrap_identity(node: OCPTNode, left: &Vec<String>, right: &Vec<String>, kind: IdentityRelationKind) -> (r: OCPTNode)
    ensures
        r is Operator,
        r->Operator_0.children@ == seq![node],
        r->Operator_0.operator_type is IdentityRelation,
        r->Operator_0.operator_type->IdentityRelation_0.kind == kind,
        views(r->Operator_0.operator_type->IdentityRelation_0.left@) == sorted_of(Set::new(|a: Seq<char>| seq_has(left@, a))),
        views(r->Operator_0.operator_type->IdentityRelation_0.right@) == sorted_of(Set::new(|a: Seq<char>| seq_has(right@, a))),
{
    let l = set_to_sorted_vec(left);
    let r = set_to_sorted_vec(right);
    proof {
        lemma_sorted_of(l@, Set::new(|a: Seq<char>| seq_has(left@, a)));
        lemma_sorted_of(r@, Set::new(|a: Seq<char>| seq_has(right@, a)));
    }
    let rel = IdentityRelation { left: l, right: r, kind };
    OCPTNode::Operator(OCPTOperator::new_identity(rel, node))
}

/// The objects of a type in `types` that event `e` of `activity` relates to.
pub open spec fn typed_objects(rs: Seq<Relation>, activity: Seq<char>, types: Seq<String>, e: Seq<char>) -> Set<Seq<char>> {
    Set::new(|o: Seq<char>| exists|i: int| 0 <= i < rs.len() && (#[trigger] rs[i]).0@ == e && rs[i].1@ == activity
        && seq_has(types, rs[i].4@) && rs[i].3@ == o)
}

/// Event `e` of `activity` relates to an object of a type in `first` or `last`.
pub open spec fn voting_event(rs: Seq<Relation>, activity: Seq<char>, first: Seq<String>, last: Seq<String>, e: Seq<char>) -> bool {
    exists|i: int| 0 <= i < rs.len() && (#[trigger] rs[i]).0@ == e && rs[i].1@ == activity
        && (seq_has(first, rs[i].4@) || seq_has(last, rs[i].4@))
}

/// The events that vote for a split (`split`) or a merge (`!split`): more objects
/// of the first (last) types than of the last (first) ones.
pub open spec fn votes(rs: Seq<Relation>, activity: Seq<char>, first: Seq<String>, last: Seq<String>, split: bool) -> Set<Seq<char>> {
    Set::new(|e: Seq<char>| voting_event(rs, activity, first, last, e) && if split {
        typed_objects(rs, activity, first, e).len() > typed_objects(rs, activity, last, e).len()
    } else {
        typed_objects(rs, activity, last, e).len() > typed_objects(rs, activity, first, e).len()
    })
}

/// A strictly increasing vector lists a finite set of as many elements.
proof fn lemma_sorted_len(v: Seq<String>, s: Set<Seq<char>>)
    requires
        sorted_strict(v),
        forall|x: Seq<char>| #[trigger] s.contains(x) <==> seq_has(v, x),
    ensures
        s.finite(),
        s.len() == v.len(),
{
    let q = views(v);
    assert(q.to_set() =~= s) by {
        assert forall|x: Seq<char>| q.to_set().contains(x) <==> s.contains(x) by {
            if q.to_set().contains(x) {
                let i = choose|i: int| 0 <= i < q.len() && q[i] == x;
                assert(v[i]@ == x);
            }
            if s.contains(x) {
                let i = choose|i: int| 0 <= i < v.len() && (#[trigger] v[i])@ == x;
                assert(q[i] == x);
            }
        }
    }
    lemma_sorted_strict_unique(v);
    assert(q.no_duplicates()) by {
        assert forall|i: int, j: int| 0 <= i < q.len() && 0 <= j < q.len() && i != j implies q[i] != q[j] by {
            assert(q[i] == v[i]@ && q[j] == v[j]@);
        }
    }
    q.unique_seq_to_set();
    vstd::seq_lib::seq_to_set_is_finite(q);
}

/// The objects of a type in `types` that event `eid` of `activity` relates to, sorted.
fn typed_objects_of(relations: &Vec<Relation>, eid: &String, activity: &String, types: &Vec<String>) -> (r: Vec<String>)
    ensures
        sorted_strict(r@),
        forall|o: Seq<char>| #[trigger] seq_has(r@, o) <==> typed_objects(relations@, activity@, types@, eid@).contains(o),
{
    let ghost rs = relations@;
    let mut out: Vec<String> = Vec::new();
    let mut n: usize = 0;
    while n < relations.len()
        invariant
            0 <= n <= rs.len(),
            rs == relations@,
            sorted_strict(out@),
            forall|o: Seq<char>| #[trigger] seq_has(out@, o) <==> exists|i: int| 0 <= i < n && (#[trigger] rs[i]).0@ == eid@
                && rs[i].1@ == activity@ && seq_has(types@, rs[i].4@) && rs[i].3@ == o,
        decreases rs.len() - n,
    {
        let rel = &relations[n];
        if rel.0 == *eid && rel.1 == *activity && contains_string(types, &rel.4) {
            insert_sorted(&mut out, &rel.3);
        }
        proof {
            assert forall|o: Seq<char>| #[trigger] seq_has(out@, o) <==> exists|i: int| 0 <= i < n + 1 && (#[trigger] rs[i]).0@ == eid@
                && rs[i].1@ == activity@ && seq_has(types@, rs[i].4@) && rs[i].3@ == o by {
                if exists|i: int| 0 <= i < n + 1 && (#[trigger] rs[i]).0@ == eid@ && rs[i].1@ == activity@ && seq_has(types@, rs[i].4@) && rs[i].3@ == o {
                    let i = choose|i: int| 0 <= i < n + 1 && (#[trigger] rs[i]).0@ == eid@ && rs[i].1@ == activity@ && seq_has(types@, rs[i].4@) && rs[i].3@ == o;
                    if i < n {
                        assert(exists|i2: int| 0 <= i2 < n && (#[trigger] rs[i2]).0@ == eid@ && rs[i2].1@ == activity@ && seq_has(types@, rs[i2].4@) && rs[i2].3@ == o);
                    }
                }
            }
        }
        n += 1;
    }
    out
}

/// The events of `activity` with an object of a type in `first` or `last`, each
/// once, in order of first appearance.
fn voting_events(relations: &Vec<Relation>, activity: &String, first: &Vec<String>, last: &Vec<String>) -> (r: Vec<String>)
    ensures
        crate::ocim::model::strings_unique(r@),
        forall|e: Seq<char>| #[trigger] seq_has(r@, e) <==> voting_event(relations@, activity@, first@, last@, e),
{
    let ghost rs = relations@;
    let mut ids: Vec<String> = Vec::new();
    let mut n: usize = 0;
    while n < relations.len()
        invariant
            0 <= n <= rs.len(),
            rs == relations@,
            crate::ocim::model::strings_unique(ids@),
            forall|e: Seq<char>| #[trigger] seq_has(ids@, e) <==> exists|i: int| 0 <= i < n && (#[trigger] rs[i]).0@ == e
                && rs[i].1@ == activity@ && (seq_has(first@, rs[i].4@) || seq_has(last@, rs[i].4@)),
        decreases rs.len() - n,
    {
        let rel = &relations[n];
        let ghost before = ids@;
        let keep = rel.1 == *activity && (contains_string(first, &rel.4) || contains_string(last, &rel.4));
        if keep && !contains_string(&ids, &rel.0) {
            ids.push(rel.0.clone());
            proof {
                assert forall|i: int, j: int| 0 <= i < ids@.len() && 0 <= j < ids@.len() && (#[trigger] ids@[i])@ == (#[trigger] ids@[j])@ implies i == j by {
                    if i < before.len() && j < before.len() {
                        assert(ids@[i] == before[i] && ids@[j] == before[j]);
                    } else if i < before.len() {
                        assert(ids@[i] == before[i]);
                    } else if j < before.len() {
                        assert(ids@[j] == before[j]);
                    }
                }
            }
        }
        proof {
            assert forall|e: Seq<char>| #[trigger] seq_has(ids@, e) <==> exists|i: int| 0 <= i < n + 1 && (#[trigger] rs[i]).0@ == e
                && rs[i].1@ == activity@ && (seq_has(first@, rs[i].4@) || seq_has(last@, rs[i].4@)) by {
                if seq_has(ids@, e) {
                    let k = choose|k: int| 0 <= k < ids@.len() && (#[trigger] ids@[k])@ == e;
                    if k < before.len() {
                        assert(ids@[k] == before[k]);
                        assert(seq_has(before, e));
                        let i = choose|i: int| 0 <= i < n && (#[trigger] rs[i]).0@ == e && rs[i].1@ == activity@ && (seq_has(first@, rs[i].4@) || seq_has(last@, rs[i].4@));
                        assert(exists|i2: int| 0 <= i2 < n + 1 && (#[trigger] rs[i2]).0@ == e && rs[i2].1@ == activity@ && (seq_has(first@, rs[i2].4@) || seq_has(last@, rs[i2].4@)));
                    } else {
                        assert(rs[n as int].0@ == e);
                    }
                }
                if exists|i: int| 0 <= i < n + 1 && (#[trigger] rs[i]).0@ == e && rs[i].1@ == activity@ && (seq_has(first@, rs[i].4@) || seq_has(last@, rs[i].4@)) {
                    let i = choose|i: int| 0 <= i < n + 1 && (#[trigger] rs[i]).0@ == e && rs[i].1@ == activity@ && (seq_has(first@, rs[i].4@) || seq_has(last@, rs[i].4@));
                    if i < n {
                        assert(seq_has(before, e));
                        let k = choose|k: int| 0 <= k < before.len() && (#[trigger] before[k])@ == e;
                        assert(ids@[k] == before[k]);
                    } else if seq_has(before, e) {
                        let k = choose|k: int| 0 <= k < before.len() && (#[trigger] before[k])@ == e;
                        assert(ids@[k] == before[k]);
                    } else {
                        assert(ids@[ids@.len() - 1]@ == e);
                    }
                }
            }
        }
        n += 1;
    }
    ids
}

/// Whether the events of `activity` mostly split (more objects of the first types
/// than of the last ones) or mostly merge: `ObjectSplit` where the split votes
/// outnumber the merge votes, else `ObjectMerge`.
pub fn classify_merge_or_split(relations: &Vec<Relation>, activity: &String, first_types: &Vec<String>, last_types: &Vec<String>) -> (r: IdentityRelationKind)
    ensures
        votes(relations@, activity@, first_types@, last_types@, true).finite(),
        votes(relations@, activity@, first_types@, last_types@, false).finite(),
        r == if votes(relations@, activity@, first_types@, last_types@, true).len()
            > votes(relations@, activity@, first_types@, last_types@, false).len() {
            IdentityRelationKind::ObjectSplit
        } else {
            IdentityRelationKind::ObjectMerge
        },
{
    let ghost rs = relations@;
    let ghost (a, f, l) = (activity@, first_types@, last_types@);
    let events = voting_events(relations, activity, first_types, last_types);
    let mut split_votes: usize = 0;
    let mut merge_votes: usize = 0;
    let mut k: usize = 0;
    let ghost mut split_set: Set<Seq<char>> = Set::empty();
    let ghost mut merge_set: Set<Seq<char>> = Set::empty();
    while k < events.len()
        invariant
            0 <= k <= events@.len(),
            rs == relations@,
            a == activity@ && f == first_types@ && l == last_types@,
            crate::ocim::model::strings_unique(events@),
            forall|e: Seq<char>| #[trigger] seq_has(events@, e) <==> voting_event(rs, a, f, l, e),
            split_set.finite(),
            merge_set.finite(),
            split_votes == split_set.len(),
            merge_votes == merge_set.len(),
            split_votes <= k,
            merge_votes <= k,
            forall|e: Seq<char>| #[trigger] split_set.contains(e) <==> (exists|q: int| 0 <= q < k && (#[trigger] events@[q])@ == e)
                && votes(rs, a, f, l, true).contains(e),
            forall|e: Seq<char>| #[trigger] merge_set.contains(e) <==> (exists|q: int| 0 <= q < k && (#[trigger] events@[q])@ == e)
                && votes(rs, a, f, l, false).contains(e),
        decreases events@.len() - k,
    {
        let e = &events[k];
        let fo = typed_objects_of(relations, e, activity, first_types);
        let lo = typed_objects_of(relations, e, activity, last_types);
        proof {
            lemma_sorted_len(fo@, typed_objects(rs, a, f, e@));
            lemma_sorted_len(lo@, typed_objects(rs, a, l, e@));
            assert(seq_has(events@, e@));
            assert(!split_set.contains(e@) && !merge_set.contains(e@)) by {
                if split_set.contains(e@) || merge_set.contains(e@) {
                    let q = choose|q: int| 0 <= q < k && (#[trigger] events@[q])@ == e@;
                }
            }
        }
        let ghost old_split = split_set;
        let ghost old_merge = merge_set;
        if fo.len() > lo.len() {
            split_votes += 1;
            proof {
                split_set = split_set.insert(e@);
            }
        } else if lo.len() > fo.len() {
            merge_votes += 1;
            proof {
                merge_set = merge_set.insert(e@);
            }
        }
        proof {
            assert forall|x: Seq<char>| #[trigger] split_set.contains(x) <==> (exists|q: int| 0 <= q < k + 1 && (#[trigger] events@[q])@ == x)
                && votes(rs, a, f, l, true).contains(x) by {
                if exists|q: int| 0 <= q < k + 1 && (#[trigger] events@[q])@ == x {
                    let q = choose|q: int| 0 <= q < k + 1 && (#[trigger] events@[q])@ == x;
                    if q < k {
                        assert(exists|q2: int| 0 <= q2 < k && (#[trigger] events@[q2])@ == x);
                    }
                }
                if exists|q: int| 0 <= q < k && (#[trigger] events@[q])@ == x {
                    let q = choose|q: int| 0 <= q < k && (#[trigger] events@[q])@ == x;
                    assert(exists|q2: int| 0 <= q2 < k + 1 && (#[trigger] events@[q2])@ == x);
                }
            }
            assert forall|x: Seq<char>| #[trigger] merge_set.contains(x) <==> (exists|q: int| 0 <= q < k + 1 && (#[trigger] events@[q])@ == x)
                && votes(rs, a, f, l, false).contains(x) by {
                if exists|q: int| 0 <= q < k + 1 && (#[trigger] events@[q])@ == x {
                    let q = choose|q: int| 0 <= q < k + 1 && (#[trigger] events@[q])@ == x;
                    if q < k {
                        assert(exists|q2: int| 0 <= q2 < k && (#[trigger] events@[q2])@ == x);
                    }
                }
                if exists|q: int| 0 <= q < k && (#[trigger] events@[q])@ == x {
                    let q = choose|q: int| 0 <= q < k && (#[trigger] events@[q])@ == x;
                    assert(exists|q2: int| 0 <= q2 < k + 1 && (#[trigger] events@[q2])@ == x);
                }
            }
        }
        k += 1;
    }
    proof {
        assert(split_set =~= votes(rs, a, f, l, true)) by {
            assert forall|x: Seq<char>| votes(rs, a, f, l, true).contains(x) implies split_set.contains(x) by {
                assert(seq_has(events@, x));
                let q = choose|q: int| 0 <= q < events@.len() && (#[trigger] events@[q])@ == x;
            }
        }
        assert(merge_set =~= votes(rs, a, f, l, false)) by {
            assert forall|x: Seq<char>| votes(rs, a, f, l, false).contains(x) implies merge_set.contains(x) by {
                assert(seq_has(events@, x));
                let q = choose|q: int| 0 <= q < events@.len() && (#[trigger] events@[q])@ == x;
            }
        }
    }
    if split_votes > merge_votes {
        IdentityRelationKind::ObjectSplit
    } else {
        IdentityRelationKind::ObjectMerge
    }
}

/// The strings of `v` as a set.
pub open spec fn string_set(v: Seq<String>) -> Set<Seq<char>> {
    Set::new(|a: Seq<char>| seq_has(v, a))
}

/// `t` wrapped in an identity relation between `left` and `right`.
pub open spec fn wrapped(t: OTree, left: Seq<String>, right: Seq<String>, kind: IdentityRelationKind) -> OTree {
    OTree::Op(OpKind::Identity(sorted_of(string_set(left)), sorted_of(string_set(right)), kind), seq![t])
}

/// The activities of the children of an operator node.
pub open spec fn child_activities(node: OCPTNode) -> Set<Seq<char>> {
    match node {
        OCPTNode::Leaf(_) => Set::empty(),
        OCPTNode::Operator(op) => Set::new(|a: Seq<char>| exists|i: int| 0 <= i < op.children@.len() && visible(#[trigger] op.children@[i], a)),
    }
}

/// The tree with the identity relation inserted around every maximal subtree whose
/// activities all lie in `subset` (around the root itself when `root`).
pub open spec fn subset_synced(
    node: OCPTNode,
    left: Seq<String>,
    right: Seq<String>,
    subset: Seq<String>,
    kind: IdentityRelationKind,
    root: bool,
) -> OTree
    decreases node,
{
    match node {
        OCPTNode::Leaf(leaf) => if root || (leaf.activity_label matches OCPTLeafLabel::Activity(a) && seq_has(subset, a@)) {
            wrapped(node@, left, right, kind)
        } else {
            node@
        },
        OCPTNode::Operator(op) => {
            let synced = OTree::Op(
                op.operator_type@,
                Seq::new(op.children@.len(), |i: int| if 0 <= i < op.children@.len() {
                    subset_synced(op.children@[i], left, right, subset, kind, false)
                } else {
                    OTree::Op(OpKind::Sequence, Seq::empty())
                }),
            );
            let acts = child_activities(node);
            if root {
                wrapped(synced, left, right, kind)
            } else if !acts.is_empty() && acts.subset_of(string_set(subset)) {
                wrapped(node@, left, right, kind)
            } else if exists|a: Seq<char>| acts.contains(a) && #[trigger] seq_has(subset, a) {
                synced
            } else {
                node@
            }
        },
    }
}

/// The view of a node wrapped by `wrap_identity`.
proof fn lemma_wrapped_view(r: OCPTNode, node: OCPTNode, left: Seq<String>, right: Seq<String>, kind: IdentityRelationKind)
    requires
        r is Operator,
        r->Operator_0.children@ == seq![node],
        r->Operator_0.operator_type is IdentityRelation,
        r->Operator_0.operator_type->IdentityRelation_0.kind == kind,
        views(r->Operator_0.operator_type->IdentityRelation_0.left@) == sorted_of(string_set(left)),
        views(r->Operator_0.operator_type->IdentityRelation_0.right@) == sorted_of(string_set(right)),
    ensures
        r@ == wrapped(node@, left, right, kind),
{
    let op = r->Operator_0;
    let rel = op.operator_type->IdentityRelation_0;
    assert(rel.left@.map_values(|s: String| s@) =~= views(rel.left@));
    assert(rel.right@.map_values(|s: String| s@) =~= views(rel.right@));
    assert(op.operator_type@ =~= OpKind::Identity(sorted_of(string_set(left)), sorted_of(string_set(right)), kind));
    assert(r@ is Op);
    assert(r@->Op_0 == op.operator_type@);
    assert(r@->Op_1 =~= seq![node@]);
    assert(r@ =~= wrapped(node@, left, right, kind));
}

/// Inserts the identity relation between `left` and `right` around every maximal
/// subtree whose activities all lie in `subset`; at the root, the whole tree is
/// wrapped after its children were treated.
pub fn insert_subset_sync(
    node: OCPTNode,
    left: &Vec<String>,
    right: &Vec<String>,
    subset_activities: &Vec<String>,
    kind: &IdentityRelationKind,
    root: bool,
) -> (r: OCPTNode)
    ensures
        r@ == subset_synced(node, left@, right@, subset_activities@, *kind, root),
    decreases node,
{
    let ghost input = node;
    match node {
        OCPTNode::Leaf(leaf) => {
            let inside = match &leaf.activity_label {
                OCPTLeafLabel::Activity(a) => contains_string(subset_activities, a),
                OCPTLeafLabel::Tau => false,
            };
            assert(inside == (leaf.activity_label matches OCPTLeafLabel::Activity(a) && seq_has(subset_activities@, a@)));
            if root || inside {
                let r = wrap_identity(OCPTNode::Leaf(leaf), left, right, *kind);
                proof {
                    lemma_wrapped_view(r, input, left@, right@, *kind);
                    assert(subset_synced(input, left@, right@, subset_activities@, *kind, root) == wrapped(input@, left@, right@, *kind));
                }
                r
            } else {
                let r = OCPTNode::Leaf(leaf);
                assert(r@ == input@);
                assert(!root);
                assert(!(leaf.activity_label matches OCPTLeafLabel::Activity(a) && seq_has(subset_activities@, a@)));
                assert(subset_synced(input, left@, right@, subset_activities@, *kind, root) == input@);
                r
            }
        },
        OCPTNode::Operator(op) => {
            let ghost op0 = op;
            // the activities of the children
            let mut acts: Vec<String> = Vec::new();
            let mut k: usize = 0;
            while k < op.children.len()
                invariant
                    0 <= k <= op.children@.len(),
                    op == op0,
                    input == OCPTNode::Operator(op0),
                    sorted_strict(acts@),
                    forall|a: Seq<char>| #[trigger] seq_has(acts@, a) <==> exists|i: int| 0 <= i < k && visible(#[trigger] op.children@[i], a),
                decreases op.children@.len() - k,
            {
                let ghost before = acts@;
                collect_activities(&op.children[k], &mut acts);
                proof {
                    assert forall|a: Seq<char>| #[trigger] seq_has(acts@, a) <==> exists|i: int| 0 <= i < k + 1 && visible(#[trigger] op.children@[i], a) by {
                        if exists|i: int| 0 <= i < k + 1 && visible(#[trigger] op.children@[i], a) {
                            let i = choose|i: int| 0 <= i < k + 1 && visible(#[trigger] op.children@[i], a);
                            if i < k {
                                assert(exists|i2: int| 0 <= i2 < k && visible(#[trigger] op.children@[i2], a));
                            }
                        }
                        if exists|i: int| 0 <= i < k && visible(#[trigger] op.children@[i], a) {
                            let i = choose|i: int| 0 <= i < k && visible(#[trigger] op.children@[i], a);
                            assert(exists|i2: int| 0 <= i2 < k + 1 && visible(#[trigger] op.children@[i2], a));
                        }
                    }
                }
                k += 1;
            }
            let ghost ca = child_activities(input);
            proof {
                assert forall|a: Seq<char>| #[trigger] ca.contains(a) <==> seq_has(acts@, a) by {}
            }
            // which of them lie in the subset
            let mut all_in = acts.len() > 0;
            let mut any_in = false;
            let mut m: usize = 0;
            while m < acts.len()
                invariant
                    0 <= m <= acts@.len(),
                    all_in == (acts@.len() > 0 && forall|q: int| 0 <= q < m ==> seq_has(subset_activities@, (#[trigger] acts@[q])@)),
                    any_in == exists|q: int| 0 <= q < m && seq_has(subset_activities@, (#[trigger] acts@[q])@),
                decreases acts@.len() - m,
            {
                let inside = contains_string(subset_activities, &acts[m]);
                proof {
                    if inside {
                        assert(seq_has(subset_activities@, acts@[m as int]@));
                    }
                }
                all_in = all_in && inside;
                any_in = any_in || inside;
                proof {
                    if any_in && !inside {
                        let q = choose|q: int| 0 <= q < m && seq_has(subset_activities@, (#[trigger] acts@[q])@);
                        assert(0 <= q < m + 1);
                    }
                }
                m += 1;
            }
            proof {
                if all_in {
                    assert(!ca.is_empty()) by {
                        assert(ca.contains(acts@[0]@));
                    }
                    assert forall|a: Seq<char>| ca.contains(a) implies string_set(subset_activities@).contains(a) by {
                        let q = choose|q: int| 0 <= q < acts@.len() && (#[trigger] acts@[q])@ == a;
                    }
                } else if acts@.len() > 0 && !ca.is_empty() {
                    let q = choose|q: int| 0 <= q < acts@.len() && !seq_has(subset_activities@, (#[trigger] acts@[q])@);
                    assert(ca.contains(acts@[q]@));
                    assert(!string_set(subset_activities@).contains(acts@[q]@));
                } else {
                    assert(ca.is_empty()) by {
                        if !ca.is_empty() {
                            let a = ca.choose();
                            assert(ca.contains(a));
                            assert(seq_has(acts@, a));
                        }
                    }
                }
                if any_in {
                    let q = choose|q: int| 0 <= q < acts@.len() && seq_has(subset_activities@, (#[trigger] acts@[q])@);
                    assert(ca.contains(acts@[q]@) && seq_has(subset_activities@, acts@[q]@));
                } else {
                    assert forall|a: Seq<char>| !(ca.contains(a) && #[trigger] seq_has(subset_activities@, a)) by {
                        if ca.contains(a) && seq_has(subset_activities@, a) {
                            let q = choose|q: int| 0 <= q < acts@.len() && (#[trigger] acts@[q])@ == a;
                        }
                    }
                }
            }
            if !root && all_in {
                let r = wrap_identity(OCPTNode::Operator(op), left, right, *kind);
                proof {
                    lemma_wrapped_view(r, input, left@, right@, *kind);
                }
                return r;
            }
            if !root && !any_in {
                return OCPTNode::Operator(op);
            }
            // treat the children
            let mut op = op;
            let mut rest: Vec<OCPTNode> = Vec::new();
            std::mem::swap(&mut rest, &mut op.children);
            let ghost orig = rest@;
            assert(orig == op0.children@);
            let mut treated: Vec<OCPTNode> = Vec::new();
            let mut k: usize = 0;
            while rest.len() > 0
                invariant
                    0 <= k <= orig.len(),
                    rest@ == orig.subrange(k as int, orig.len() as int),
                    orig == op0.children@,
                    input == OCPTNode::Operator(op0),
                    treated@.len() == k,
                    forall|q: int| 0 <= q < k ==> (#[trigger] treated@[q])@ == subset_synced(orig[q], left@, right@, subset_activities@, *kind, false),
                decreases rest@.len(),
            {
                let child = rest.remove(0);
                assert(child == orig[k as int]);
                let t = insert_subset_sync(child, left, right, subset_activities, kind, false);
                treated.push(t);
                k += 1;
            }
            let ghost tv = treated@;
            op.children = treated;
            let synced = OCPTNode::Operator(op);
            proof {
                let s1 = Seq::new(tv.len(), |i: int| if 0 <= i < tv.len() { tv[i].view() } else { OTree::Op(OpKind::Sequence, Seq::empty()) });
                let s2 = Seq::new(orig.len(), |i: int| if 0 <= i < orig.len() {
                    subset_synced(orig[i], left@, right@, subset_activities@, *kind, false)
                } else {
                    OTree::Op(OpKind::Sequence, Seq::empty())
                });
                assert(s1 =~= s2);
                assert(synced@ is Op);
                assert(synced@->Op_0 == op0.operator_type@);
                assert(synced@->Op_1 =~= s1);
                assert(synced@ =~= OTree::Op(op0.operator_type@, s2));
            }
            let ghost spec_synced = OTree::Op(
                op0.operator_type@,
                Seq::new(op0.children@.len(), |i: int| if 0 <= i < op0.children@.len() {
                    subset_synced(op0.children@[i], left@, right@, subset_activities@, *kind, false)
                } else {
                    OTree::Op(OpKind::Sequence, Seq::empty())
                }),
            );
            proof {
                assert(synced@ =~= spec_synced);
            }
            if root {
                let r = wrap_identity(synced, left, right, *kind);
                proof {
                    lemma_wrapped_view(r, synced, left@, right@, *kind);
                    let got = subset_synced(input, left@, right@, subset_activities@, *kind, root);
                    assert(got is Op);
                    assert(got->Op_1.len() == 1);
                    let inner = got->Op_1[0];
                    assert(inner is Op);
                    assert(inner->Op_0 == op0.operator_type@);
                    assert(inner->Op_1 =~= spec_synced->Op_1);
                    assert(inner =~= spec_synced);
                    assert(got->Op_1 =~= seq![spec_synced]);
                    assert(got =~= wrapped(spec_synced, left@, right@, *kind));
                }
                r
            } else {
                proof {
                    assert(input is Operator);
                    assert(!(!ca.is_empty() && ca.subset_of(string_set(subset_activities@))));
                    assert(exists|a: Seq<char>| ca.contains(a) && #[trigger] seq_has(subset_activities@, a));
                    let got = subset_synced(input, left@, right@, subset_activities@, *kind, root);
                    assert(got is Op);
                    assert(got->Op_0 == op0.operator_type@);
                    assert(got->Op_1.len() == op0.children@.len());
                    assert(got->Op_1 =~= spec_synced->Op_1);
                    assert(got =~= spec_synced);
                }
                synced
            }
        },
    }
}

} // verus!
