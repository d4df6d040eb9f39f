//! Projection of an object-centric process tree onto each object type.
use vstd::prelude::*;
use crate::ocim::model::{
    contains_string, has_set_key, in_set_of, lemma_in_set_of_at, lookup_set, seq_has,
    set_keys_unique,
};
use crate::ocpt::{OCPT, OCPTLeaf, OCPTLeafLabel, OCPTNode, OCPTOperatorType, child_count, find_all_leaves, leaves};
use crate::process_tree::{Leaf, LeafLabel, Node, Operator, OperatorType, PTree, ProcessTree};
use crate::text::{insert_sorted, lemma_sorted_of, sorted_of, sorted_strict, union_into, views};

verus! {

/// Why an object-centric process tree cannot be converted.
#[derive(Debug, Clone, Copy, PartialEq, Eq, Structural)]
pub enum ConvertOcptToOcpnError {
    InvalidOcpt,
    UnsupportedIdentityRelations,
    MalformedLoop { child_count: usize },
    InvalidProjectedProcessTree,
    InvalidGeneratedOcpn,
}

/// The leaf is labelled with activity `a`.
pub open spec fn is_activity_leaf(l: OCPTLeaf, a: Seq<char>) -> bool {
    l.activity_label matches OCPTLeafLabel::Activity(x) && x@ == a
}

/// Leaf `j` is the last of the first `n` leaves that is labelled `a`.
pub open spec fn last_in_prefix(ls: Seq<OCPTLeaf>, n: int, a: Seq<char>, j: int) -> bool {
    &&& 0 <= j < n
    &&& is_activity_leaf(ls[j], a)
    &&& forall|k: int| j < k < n ==> !is_activity_leaf(#[trigger] ls[k], a)
}

/// Some of the first `n` leaves is labelled `a`.
pub open spec fn labelled_in_prefix(ls: Seq<OCPTLeaf>, n: int, a: Seq<char>) -> bool {
    exists|j: int| 0 <= j < n && is_activity_leaf(#[trigger] ls[j], a)
}

/// The object type annotations of the activity leaves, by activity; where two
/// leaves carry the same activity, the later one (left to right) counts.
pub struct LeafMetadataIndex {
    pub related: Vec<(String, Vec<String>)>,
    pub divergent: Vec<(String, Vec<String>)>,
    pub convergent: Vec<(String, Vec<String>)>,
    /// All object types that some activity leaf mentions, in increasing order.
    pub all_object_types: Vec<String>,
}

/// Which annotation of a leaf.
pub open spec fn annotation(l: OCPTLeaf, which: int) -> Seq<String> {
    if which == 0 {
        l.related_ob_types@
    } else if which == 1 {
        l.divergent_ob_types@
    } else {
        l.convergent_ob_types@
    }
}

/// The map of one annotation over the first `n` leaves.
pub open spec fn annotation_map_of(ls: Seq<OCPTLeaf>, n: int, m: Seq<(String, Vec<String>)>, which: int) -> bool {
    &&& set_keys_unique(m)
    &&& forall|a: Seq<char>| #[trigger] has_set_key(m, a) <==> labelled_in_prefix(ls, n, a)
    &&& forall|a: Seq<char>, t: Seq<char>, j: int| #[trigger] last_in_prefix(ls, n, a, j) ==>
        (#[trigger] in_set_of(m, a, t) <==> seq_has(annotation(ls[j], which), t))
}

/// `t` is mentioned by some annotation of some activity leaf among the first `n`.
pub open spec fn mentioned_in_prefix(ls: Seq<OCPTLeaf>, n: int, t: Seq<char>) -> bool {
    exists|j: int| 0 <= j < n && (#[trigger] ls[j]).activity_label is Activity
        && (seq_has(ls[j].related_ob_types@, t) || seq_has(ls[j].divergent_ob_types@, t) || seq_has(ls[j].convergent_ob_types@, t))
}

impl LeafMetadataIndex {
    /// The metadata index of the leaves `ls`.
    pub open spec fn indexes(&self, ls: Seq<OCPTLeaf>) -> bool {
        &&& annotation_map_of(ls, ls.len() as int, self.related@, 0)
        &&& annotation_map_of(ls, ls.len() as int, self.divergent@, 1)
        &&& annotation_map_of(ls, ls.len() as int, self.convergent@, 2)
        &&& sorted_strict(self.all_object_types@)
        &&& forall|t: Seq<char>| #[trigger] seq_has(self.all_object_types@, t) <==> mentioned_in_prefix(ls, ls.len() as int, t)
    }

    /// Object type `t` is related to activity `a`.
    pub open spec fn rel(&self, a: Seq<char>, t: Seq<char>) -> bool {
        in_set_of(self.related@, a, t)
    }

    /// Object type `t` is divergent for activity `a`.
    pub open spec fn div(&self, a: Seq<char>, t: Seq<char>) -> bool {
        in_set_of(self.divergent@, a, t)
    }

    pub open spec fn wf(&self) -> bool {
        set_keys_unique(self.related@) && set_keys_unique(self.divergent@)
    }

    /// Builds the index from the activity leaves of the tree.
    pub fn from_ocpt(ocpt: &OCPT) -> (r: Self)
        ensures
            r.indexes(leaves(ocpt.root)),
            r.wf(),
    {
        let ls = find_all_leaves(&ocpt.root);
        let ghost lsv = leaves(ocpt.root);
        let mut related: Vec<(String, Vec<String>)> = Vec::new();
        let mut divergent: Vec<(String, Vec<String>)> = Vec::new();
        let mut convergent: Vec<(String, Vec<String>)> = Vec::new();
        let mut all: Vec<String> = Vec::new();
        let mut i: usize = 0;
        while i < ls.len()
            invariant
                0 <= i <= ls@.len(),
                ls@.len() == lsv.len(),
                forall|k: int| 0 <= k < ls@.len() ==> *(#[trigger] ls@[k]) == lsv[k],
                annotation_map_of(lsv, i as int, related@, 0),
                annotation_map_of(lsv, i as int, divergent@, 1),
                annotation_map_of(lsv, i as int, convergent@, 2),
                sorted_strict(all@),
                forall|t: Seq<char>| #[trigger] seq_has(all@, t) <==> mentioned_in_prefix(lsv, i as int, t),
            decreases ls@.len() - i,
        {
            let leaf = ls[i];
            let ghost lf = lsv[i as int];
            assert(*leaf == lf);
            match &leaf.activity_label {
                OCPTLeafLabel::Tau => {
                    proof {
                        lemma_prefix_step_other(lsv, i as int, related@, 0);
                        lemma_prefix_step_other(lsv, i as int, divergent@, 1);
                        lemma_prefix_step_other(lsv, i as int, convergent@, 2);
                        assert forall|t: Seq<char>| #[trigger] seq_has(all@, t) <==> mentioned_in_prefix(lsv, i + 1, t) by {
                            if mentioned_in_prefix(lsv, i + 1, t) {
                                let j = choose|j: int| 0 <= j < i + 1 && (#[trigger] lsv[j]).activity_label is Activity
                                    && (seq_has(lsv[j].related_ob_types@, t) || seq_has(lsv[j].divergent_ob_types@, t) || seq_has(lsv[j].convergent_ob_types@, t));
                                assert(j < i);
                                assert(mentioned_in_prefix(lsv, i as int, t));
                            }
                            if mentioned_in_prefix(lsv, i as int, t) {
                                let j = choose|j: int| 0 <= j < i && (#[trigger] lsv[j]).activity_label is Activity
                                    && (seq_has(lsv[j].related_ob_types@, t) || seq_has(lsv[j].divergent_ob_types@, t) || seq_has(lsv[j].convergent_ob_types@, t));
                                assert(mentioned_in_prefix(lsv, i + 1, t));
                            }
                        }
                    }
                },
                OCPTLeafLabel::Activity(activity) => {
                    let ghost all_before = all@;
                    let mut k: usize = 0;
                    while k < leaf.related_ob_types.len()
                        invariant
                            0 <= k <= leaf.related_ob_types@.len(),
                            sorted_strict(all@),
                            forall|t: Seq<char>| #[trigger] seq_has(all@, t) <==> (seq_has(all_before, t)
                                || exists|q: int| 0 <= q < k && (#[trigger] leaf.related_ob_types@[q])@ == t),
                        decreases leaf.related_ob_types@.len() - k,
                    {
                        insert_sorted(&mut all, &leaf.related_ob_types[k]);
                        proof { lemma_extend_prefix(leaf.related_ob_types@, k as int, all_before, all@); }
                        k += 1;
                    }
                    let ghost all_mid1 = all@;
                    let mut k: usize = 0;
                    while k < leaf.divergent_ob_types.len()
                        invariant
                            0 <= k <= leaf.divergent_ob_types@.len(),
                            sorted_strict(all@),
                            forall|t: Seq<char>| #[trigger] seq_has(all@, t) <==> (seq_has(all_mid1, t)
                                || exists|q: int| 0 <= q < k && (#[trigger] leaf.divergent_ob_types@[q])@ == t),
                        decreases leaf.divergent_ob_types@.len() - k,
                    {
                        insert_sorted(&mut all, &leaf.divergent_ob_types[k]);
                        proof { lemma_extend_prefix(leaf.divergent_ob_types@, k as int, all_mid1, all@); }
                        k += 1;
                    }
                    let ghost all_mid2 = all@;
                    let mut k: usize = 0;
                    while k < leaf.convergent_ob_types.len()
                        invariant
                            0 <= k <= leaf.convergent_ob_types@.len(),
                            sorted_strict(all@),
                            forall|t: Seq<char>| #[trigger] seq_has(all@, t) <==> (seq_has(all_mid2, t)
                                || exists|q: int| 0 <= q < k && (#[trigger] leaf.convergent_ob_types@[q])@ == t),
                        decreases leaf.convergent_ob_types@.len() - k,
                    {
                        insert_sorted(&mut all, &leaf.convergent_ob_types[k]);
                        proof { lemma_extend_prefix(leaf.convergent_ob_types@, k as int, all_mid2, all@); }
                        k += 1;
                    }
                    proof {
                        assert forall|t: Seq<char>| #[trigger] seq_has(all@, t) <==> mentioned_in_prefix(lsv, i + 1, t) by {
                            let cur = seq_has(lf.related_ob_types@, t) || seq_has(lf.divergent_ob_types@, t) || seq_has(lf.convergent_ob_types@, t);
                            assert(seq_has(lf.related_ob_types@, t) <==> exists|q: int| 0 <= q < lf.related_ob_types@.len() && (#[trigger] lf.related_ob_types@[q])@ == t);
                            assert(seq_has(all@, t) <==> (seq_has(all_before, t) || cur));
                            if mentioned_in_prefix(lsv, i + 1, t) {
                                let j = choose|j: int| 0 <= j < i + 1 && (#[trigger] lsv[j]).activity_label is Activity
                                    && (seq_has(lsv[j].related_ob_types@, t) || seq_has(lsv[j].divergent_ob_types@, t) || seq_has(lsv[j].convergent_ob_types@, t));
                                if j < i {
                                    assert(mentioned_in_prefix(lsv, i as int, t));
                                }
                            }
                            if mentioned_in_prefix(lsv, i as int, t) {
                                let j = choose|j: int| 0 <= j < i && (#[trigger] lsv[j]).activity_label is Activity
                                    && (seq_has(lsv[j].related_ob_types@, t) || seq_has(lsv[j].divergent_ob_types@, t) || seq_has(lsv[j].convergent_ob_types@, t));
                                assert(mentioned_in_prefix(lsv, i + 1, t));
                            }
                            if cur {
                                assert(lsv[i as int].activity_label is Activity);
                                assert(mentioned_in_prefix(lsv, i + 1, t));
                            }
                        }
                    }
                    proof {
                        lemma_map_as_last(lsv, i as int, related@, 0);
                        lemma_map_as_last(lsv, i as int, divergent@, 1);
                        lemma_map_as_last(lsv, i as int, convergent@, 2);
                    }
                    let rv = leaf.related_ob_types.clone();
                    let dv = leaf.divergent_ob_types.clone();
                    let cv = leaf.convergent_ob_types.clone();
                    assert(rv@ =~= leaf.related_ob_types@);
                    assert(dv@ =~= leaf.divergent_ob_types@);
                    assert(cv@ =~= leaf.convergent_ob_types@);
                    map_insert_set(&mut related, activity, rv);
                    map_insert_set(&mut divergent, activity, dv);
                    map_insert_set(&mut convergent, activity, cv);
                    proof {
                        lemma_prefix_step_same(lsv, i as int, related@, 0);
                        lemma_prefix_step_same(lsv, i as int, divergent@, 1);
                        lemma_prefix_step_same(lsv, i as int, convergent@, 2);
                    }
                },
            }
            i += 1;
        }
        LeafMetadataIndex { related, divergent, convergent, all_object_types: all }
    }
}

proof fn lemma_last_exists(ls: Seq<OCPTLeaf>, n: int, a: Seq<char>)
    requires
        0 <= n <= ls.len(),
        labelled_in_prefix(ls, n, a),
    ensures
        exists|j: int| #[trigger] last_in_prefix(ls, n, a, j),
    decreases n,
{
    if is_activity_leaf(ls[n - 1], a) {
        assert(last_in_prefix(ls, n, a, n - 1));
    } else {
        let j0 = choose|j: int| 0 <= j < n && is_activity_leaf(#[trigger] ls[j], a);
        assert(labelled_in_prefix(ls, n - 1, a));
        lemma_last_exists(ls, n - 1, a);
        let j = choose|j: int| #[trigger] last_in_prefix(ls, n - 1, a, j);
        assert(last_in_prefix(ls, n, a, j));
    }
}

/// An annotation map holds for each activity exactly the annotation of its last leaf.
proof fn lemma_map_as_last(ls: Seq<OCPTLeaf>, n: int, m: Seq<(String, Vec<String>)>, which: int)
    requires
        0 <= n <= ls.len(),
        annotation_map_of(ls, n, m, which),
    ensures
        forall|a: Seq<char>, t: Seq<char>| #[trigger] in_set_of(m, a, t) <==>
            exists|j: int| #[trigger] last_in_prefix(ls, n, a, j) && seq_has(annotation(ls[j], which), t),
{
    assert forall|a: Seq<char>, t: Seq<char>| #[trigger] in_set_of(m, a, t) <==>
        exists|j: int| #[trigger] last_in_prefix(ls, n, a, j) && seq_has(annotation(ls[j], which), t) by {
        if in_set_of(m, a, t) {
            let q = choose|q: int| 0 <= q < m.len() && (#[trigger] m[q]).0@ == a && seq_has(m[q].1@, t);
            assert(has_set_key(m, a));
            lemma_last_exists(ls, n, a);
            let j = choose|j: int| #[trigger] last_in_prefix(ls, n, a, j);
            assert(in_set_of(m, a, t) <==> seq_has(annotation(ls[j], which), t));
        }
        if exists|j: int| #[trigger] last_in_prefix(ls, n, a, j) && seq_has(annotation(ls[j], which), t) {
            let j = choose|j: int| #[trigger] last_in_prefix(ls, n, a, j) && seq_has(annotation(ls[j], which), t);
            assert(in_set_of(m, a, t) <==> seq_has(annotation(ls[j], which), t));
        }
    }
}

proof fn lemma_extend_prefix(v: Seq<String>, k: int, before: Seq<String>, after: Seq<String>)
    requires
        0 <= k < v.len(),
        forall|t: Seq<char>| #[trigger] seq_has(after, t) <==> ((seq_has(before, t)
            || exists|q: int| 0 <= q < k && (#[trigger] v[q])@ == t) || t == v[k]@),
    ensures
        forall|t: Seq<char>| #[trigger] seq_has(after, t) <==> (seq_has(before, t)
            || exists|q: int| 0 <= q < k + 1 && (#[trigger] v[q])@ == t),
{
    assert forall|t: Seq<char>| #[trigger] seq_has(after, t) <==> (seq_has(before, t)
        || exists|q: int| 0 <= q < k + 1 && (#[trigger] v[q])@ == t) by {
        if exists|q: int| 0 <= q < k + 1 && (#[trigger] v[q])@ == t {
            let q = choose|q: int| 0 <= q < k + 1 && (#[trigger] v[q])@ == t;
            if q < k {
                assert(exists|q2: int| 0 <= q2 < k && (#[trigger] v[q2])@ == t);
            }
        }
        if exists|q: int| 0 <= q < k && (#[trigger] v[q])@ == t {
            let q = choose|q: int| 0 <= q < k && (#[trigger] v[q])@ == t;
            assert(exists|q2: int| 0 <= q2 < k + 1 && (#[trigger] v[q2])@ == t);
        }
        if t == v[k]@ {
            assert(exists|q2: int| 0 <= q2 < k + 1 && (#[trigger] v[q2])@ == t);
        }
    }
}

/// A leaf that is not an activity leaf leaves an annotation map unchanged.
proof fn lemma_prefix_step_other(ls: Seq<OCPTLeaf>, i: int, m: Seq<(String, Vec<String>)>, which: int)
    requires
        0 <= i < ls.len(),
        ls[i].activity_label is Tau,
        annotation_map_of(ls, i, m, which),
    ensures
        annotation_map_of(ls, i + 1, m, which),
{
    assert forall|a: Seq<char>| #[trigger] has_set_key(m, a) <==> labelled_in_prefix(ls, i + 1, a) by {
        if labelled_in_prefix(ls, i + 1, a) {
            let j = choose|j: int| 0 <= j < i + 1 && is_activity_leaf(#[trigger] ls[j], a);
            assert(labelled_in_prefix(ls, i, a));
        }
        if labelled_in_prefix(ls, i, a) {
            let j = choose|j: int| 0 <= j < i && is_activity_leaf(#[trigger] ls[j], a);
            assert(labelled_in_prefix(ls, i + 1, a));
        }
    }
    assert forall|a: Seq<char>, t: Seq<char>, j: int| #[trigger] last_in_prefix(ls, i + 1, a, j) implies
        (#[trigger] in_set_of(m, a, t) <==> seq_has(annotation(ls[j], which), t)) by {
        assert(last_in_prefix(ls, i, a, j));
    }
}

/// An activity leaf at `i` labelled `a` sets the entry of `a` to its annotation.
proof fn lemma_prefix_step_same(ls: Seq<OCPTLeaf>, i: int, m: Seq<(String, Vec<String>)>, which: int)
    requires
        0 <= i < ls.len(),
        ls[i].activity_label is Activity,
        set_keys_unique(m),
        forall|a: Seq<char>| #[trigger] has_set_key(m, a) <==> (labelled_in_prefix(ls, i, a) || a == ls[i].activity_label->Activity_0@),
        forall|a: Seq<char>, t: Seq<char>| #[trigger] in_set_of(m, a, t) <==> if a == ls[i].activity_label->Activity_0@ {
            seq_has(annotation(ls[i], which), t)
        } else {
            exists|j: int| #[trigger] last_in_prefix(ls, i, a, j) && seq_has(annotation(ls[j], which), t)
        },
    ensures
        annotation_map_of(ls, i + 1, m, which),
{
    let x = ls[i].activity_label->Activity_0@;
    assert forall|a: Seq<char>| #[trigger] has_set_key(m, a) <==> labelled_in_prefix(ls, i + 1, a) by {
        if labelled_in_prefix(ls, i + 1, a) {
            let j = choose|j: int| 0 <= j < i + 1 && is_activity_leaf(#[trigger] ls[j], a);
            if j < i {
                assert(labelled_in_prefix(ls, i, a));
            }
        }
        if labelled_in_prefix(ls, i, a) {
            let j = choose|j: int| 0 <= j < i && is_activity_leaf(#[trigger] ls[j], a);
            assert(labelled_in_prefix(ls, i + 1, a));
        }
        if a == x {
            assert(is_activity_leaf(ls[i], a));
            assert(labelled_in_prefix(ls, i + 1, a));
        }
    }
    assert forall|a: Seq<char>, t: Seq<char>, j: int| #[trigger] last_in_prefix(ls, i + 1, a, j) implies
        (#[trigger] in_set_of(m, a, t) <==> seq_has(annotation(ls[j], which), t)) by {
        if a == x {
            assert(is_activity_leaf(ls[i], a));
            assert(j == i);
        } else {
            assert(j != i);
            assert(last_in_prefix(ls, i, a, j));
            if exists|j2: int| #[trigger] last_in_prefix(ls, i, a, j2) && seq_has(annotation(ls[j2], which), t) {
                let j2 = choose|j2: int| #[trigger] last_in_prefix(ls, i, a, j2) && seq_has(annotation(ls[j2], which), t);
                if j2 < j {
                    assert(!is_activity_leaf(ls[j], a));
                } else if j < j2 {
                    assert(!is_activity_leaf(ls[j2], a));
                }
            }
        }
    }
}

/// Sets the entry of `k` to `v`, replacing an entry that is there already.
fn map_insert_set(m: &mut Vec<(String, Vec<String>)>, k: &String, v: Vec<String>)
    requires
        set_keys_unique(old(m)@),
    ensures
        set_keys_unique(final(m)@),
        forall|a: Seq<char>| #[trigger] has_set_key(final(m)@, a) <==> (has_set_key(old(m)@, a) || a == k@),
        forall|a: Seq<char>, t: Seq<char>| #[trigger] in_set_of(final(m)@, a, t) <==> if a == k@ {
            seq_has(v@, t)
        } else {
            in_set_of(old(m)@, a, t)
        },
{
    let ghost old_m = m@;
    let mut i: usize = 0;
    while i < m.len()
        invariant
            0 <= i <= m.len(),
            m@ == old_m,
            forall|q: int| 0 <= q < i ==> (#[trigger] m@[q]).0@ != k@,
        decreases m.len() - i,
    {
        if m[i].0 == *k {
            let ghost vv = v@;
            m.set(i, (k.clone(), v));
            proof {
                assert forall|a: int, b: int| 0 <= a < m@.len() && 0 <= b < m@.len() && (#[trigger] m@[a]).0@ == (#[trigger] m@[b]).0@ implies a == b by {
                    assert(m@[a].0@ == old_m[a].0@);
                    assert(m@[b].0@ == old_m[b].0@);
                }
                assert forall|a: Seq<char>| #[trigger] has_set_key(m@, a) <==> (has_set_key(old_m, a) || a == k@) by {
                    if has_set_key(m@, a) {
                        let q = choose|q: int| 0 <= q < m@.len() && (#[trigger] m@[q]).0@ == a;
                        assert(old_m[q].0@ == a);
                    }
                    if has_set_key(old_m, a) {
                        let q = choose|q: int| 0 <= q < old_m.len() && (#[trigger] old_m[q]).0@ == a;
                        assert(m@[q].0@ == a);
                    }
                    if a == k@ {
                        assert(m@[i as int].0@ == a);
                    }
                }
                assert forall|a: Seq<char>, t: Seq<char>| #[trigger] in_set_of(m@, a, t) <==> if a == k@ {
                    seq_has(vv, t)
                } else {
                    in_set_of(old_m, a, t)
                } by {
                    if a == k@ {
                        lemma_in_set_of_at(m@, i as int, t);
                    } else {
                        if in_set_of(m@, a, t) {
                            let q = choose|q: int| 0 <= q < m@.len() && (#[trigger] m@[q]).0@ == a && seq_has(m@[q].1@, t);
                            assert(old_m[q] == m@[q]);
                        }
                        if in_set_of(old_m, a, t) {
                            let q = choose|q: int| 0 <= q < old_m.len() && (#[trigger] old_m[q]).0@ == a && seq_has(old_m[q].1@, t);
                            assert(old_m[q] == m@[q]);
                        }
                    }
                }
            }
            return;
        }
        i += 1;
    }
    let ghost vv = v@;
    m.push((k.clone(), v));
    proof {
        let n = old_m.len() as int;
        assert forall|a: int, b: int| 0 <= a < m@.len() && 0 <= b < m@.len() && (#[trigger] m@[a]).0@ == (#[trigger] m@[b]).0@ implies a == b by {
            if a < n && b < n {
                assert(m@[a] == old_m[a] && m@[b] == old_m[b]);
            }
        }
        assert forall|a: Seq<char>| #[trigger] has_set_key(m@, a) <==> (has_set_key(old_m, a) || a == k@) by {
            if has_set_key(m@, a) {
                let q = choose|q: int| 0 <= q < m@.len() && (#[trigger] m@[q]).0@ == a;
                if q < n {
                    assert(old_m[q] == m@[q]);
                }
            }
            if has_set_key(old_m, a) {
                let q = choose|q: int| 0 <= q < old_m.len() && (#[trigger] old_m[q]).0@ == a;
                assert(m@[q] == old_m[q]);
            }
            if a == k@ {
                assert(m@[n].0@ == a);
            }
        }
        assert forall|a: Seq<char>, t: Seq<char>| #[trigger] in_set_of(m@, a, t) <==> if a == k@ {
            seq_has(vv, t)
        } else {
            in_set_of(old_m, a, t)
        } by {
            if a == k@ {
                lemma_in_set_of_at(m@, n, t);
            } else {
                if in_set_of(m@, a, t) {
                    let q = choose|q: int| 0 <= q < m@.len() && (#[trigger] m@[q]).0@ == a && seq_has(m@[q].1@, t);
                    assert(old_m[q] == m@[q]);
                }
                if in_set_of(old_m, a, t) {
                    let q = choose|q: int| 0 <= q < old_m.len() && (#[trigger] old_m[q]).0@ == a && seq_has(old_m[q].1@, t);
                    assert(old_m[q] == m@[q]);
                }
            }
        }
    }
}


/// Activity `a` labels some leaf of the subtree.
pub open spec fn visible(node: OCPTNode, a: Seq<char>) -> bool
    decreases node,
{
    match node {
        OCPTNode::Leaf(l) => is_activity_leaf(l, a),
        OCPTNode::Operator(op) => exists|i: int| 0 <= i < op.children@.len() && visible(#[trigger] op.children@[i], a),
    }
}

/// The activities of the subtree, in increasing order.
pub fn subtree_visible_activities(node: &OCPTNode) -> (r: Vec<String>)
    ensures
        sorted_strict(r@),
        forall|a: Seq<char>| #[trigger] seq_has(r@, a) <==> visible(*node, a),
    decreases node,
{
    let mut out: Vec<String> = Vec::new();
    match node {
        OCPTNode::Leaf(leaf) => match &leaf.activity_label {
            OCPTLeafLabel::Activity(activity) => {
                let c = activity.clone();
                out.push(c);
                assert(out@[0]@ == activity@);
                assert(seq_has(out@, activity@));
                assert forall|a: Seq<char>| #[trigger] seq_has(out@, a) <==> visible(*node, a) by {
                    if seq_has(out@, a) {
                        let q = choose|q: int| 0 <= q < out@.len() && (#[trigger] out@[q])@ == a;
                        assert(q == 0);
                    }
                }
            },
            OCPTLeafLabel::Tau => {},
        },
        OCPTNode::Operator(op) => {
            let mut k: usize = 0;
            while k < op.children.len()
                invariant
                    0 <= k <= op.children@.len(),
                    *node == OCPTNode::Operator(*op),
                    sorted_strict(out@),
                    forall|a: Seq<char>| #[trigger] seq_has(out@, a) <==>
                        exists|i: int| 0 <= i < k && visible(#[trigger] op.children@[i], a),
                decreases op.children@.len() - k,
            {
                let sub = subtree_visible_activities(&op.children[k]);
                let ghost before = out@;
                let mut j: usize = 0;
                while j < sub.len()
                    invariant
                        0 <= j <= sub@.len(),
                        sorted_strict(out@),
                        forall|a: Seq<char>| #[trigger] seq_has(out@, a) <==> (seq_has(before, a)
                            || exists|q: int| 0 <= q < j && (#[trigger] sub@[q])@ == a),
                    decreases sub@.len() - j,
                {
                    insert_sorted(&mut out, &sub[j]);
                    proof {
                        assert forall|a: Seq<char>| #[trigger] seq_has(out@, a) <==> (seq_has(before, a)
                            || exists|q: int| 0 <= q < j + 1 && (#[trigger] sub@[q])@ == a) by {
                            if exists|q: int| 0 <= q < j + 1 && (#[trigger] sub@[q])@ == a {
                                let q = choose|q: int| 0 <= q < j + 1 && (#[trigger] sub@[q])@ == a;
                                if q < j {
                                    assert(exists|q2: int| 0 <= q2 < j && (#[trigger] sub@[q2])@ == a);
                                }
                            }
                            if exists|q: int| 0 <= q < j && (#[trigger] sub@[q])@ == a {
                                let q = choose|q: int| 0 <= q < j && (#[trigger] sub@[q])@ == a;
                                assert(exists|q2: int| 0 <= q2 < j + 1 && (#[trigger] sub@[q2])@ == a);
                            }
                            if a == sub@[j as int]@ {
                                assert(exists|q2: int| 0 <= q2 < j + 1 && (#[trigger] sub@[q2])@ == a);
                            }
                        }
                    }
                    j += 1;
                }
                proof {
                    assert forall|a: Seq<char>| #[trigger] seq_has(out@, a) <==>
                        exists|i: int| 0 <= i < k + 1 && visible(#[trigger] op.children@[i], a) by {
                        if exists|q: int| 0 <= q < sub@.len() && (#[trigger] sub@[q])@ == a {
                            assert(seq_has(sub@, a));
                        }
                        if seq_has(sub@, a) {
                            let q = choose|q: int| 0 <= q < sub@.len() && (#[trigger] sub@[q])@ == a;
                        }
                        if exists|i: int| 0 <= i < k + 1 && visible(#[trigger] op.children@[i], a) {
                            let i = choose|i: int| 0 <= i < k + 1 && visible(#[trigger] op.children@[i], a);
                            if i < k {
                                assert(exists|i2: int| 0 <= i2 < k && visible(#[trigger] op.children@[i2], a));
                            }
                        }
                        if exists|i: int| 0 <= i < k && visible(#[trigger] op.children@[i], a) {
                            let i = choose|i: int| 0 <= i < k && visible(#[trigger] op.children@[i], a);
                            assert(exists|i2: int| 0 <= i2 < k + 1 && visible(#[trigger] op.children@[i2], a));
                        }
                    }
                }
                k += 1;
            }
        },
    }
    out
}

/// The activities of the subtree that are related to `ot`.
pub open spec fn related_visible(node: OCPTNode, ot: Seq<char>, meta: LeafMetadataIndex, a: Seq<char>) -> bool {
    visible(node, a) && meta.rel(a, ot)
}

pub open spec fn related_acts(node: OCPTNode, ot: Seq<char>, meta: LeafMetadataIndex) -> Set<Seq<char>> {
    Set::new(|a: Seq<char>| related_visible(node, ot, meta, a))
}

/// The subtree has an activity related to `ot`, and `ot` is divergent for all of them.
pub open spec fn fully_divergent(node: OCPTNode, ot: Seq<char>, meta: LeafMetadataIndex) -> bool {
    (exists|a: Seq<char>| #[trigger] related_visible(node, ot, meta, a))
        && forall|a: Seq<char>| #[trigger] related_visible(node, ot, meta, a) ==> meta.div(a, ot)
}

/// The activities of the subtree related to `ot`, in increasing order.
pub fn subtree_related_visible_activities(node: &OCPTNode, object_type: &String, metadata: &LeafMetadataIndex) -> (r: Vec<String>)
    requires
        metadata.wf(),
    ensures
        sorted_strict(r@),
        forall|a: Seq<char>| #[trigger] seq_has(r@, a) <==> related_visible(*node, object_type@, *metadata, a),
{
    let all = subtree_visible_activities(node);
    let mut out: Vec<String> = Vec::new();
    let mut k: usize = 0;
    while k < all.len()
        invariant
            0 <= k <= all@.len(),
            sorted_strict(out@),
            forall|a: Seq<char>| #[trigger] seq_has(out@, a) <==> (exists|q: int| 0 <= q < k && (#[trigger] all@[q])@ == a)
                && metadata.rel(a, object_type@),
        decreases all@.len() - k,
    {
        let a = &all[k];
        let keep = match lookup_set(&metadata.related, a) {
            Some(types) => contains_string(types, object_type),
            None => false,
        };
        if keep {
            insert_sorted(&mut out, a);
        }
        proof {
            assert forall|x: Seq<char>| #[trigger] seq_has(out@, x) <==> (exists|q: int| 0 <= q < k + 1 && (#[trigger] all@[q])@ == x)
                && metadata.rel(x, object_type@) by {
                if exists|q: int| 0 <= q < k + 1 && (#[trigger] all@[q])@ == x {
                    let q = choose|q: int| 0 <= q < k + 1 && (#[trigger] all@[q])@ == x;
                    if q < k {
                        assert(exists|q2: int| 0 <= q2 < k && (#[trigger] all@[q2])@ == x);
                    }
                }
                if exists|q: int| 0 <= q < k && (#[trigger] all@[q])@ == x {
                    let q = choose|q: int| 0 <= q < k && (#[trigger] all@[q])@ == x;
                    assert(exists|q2: int| 0 <= q2 < k + 1 && (#[trigger] all@[q2])@ == x);
                }
                if x == a@ {
                    assert(exists|q2: int| 0 <= q2 < k + 1 && (#[trigger] all@[q2])@ == x);
                }
            }
        }
        k += 1;
    }
    proof {
        assert forall|a: Seq<char>| #[trigger] seq_has(out@, a) <==> related_visible(*node, object_type@, *metadata, a) by {
            if seq_has(all@, a) {
                let q = choose|q: int| 0 <= q < all@.len() && (#[trigger] all@[q])@ == a;
            }
            if exists|q: int| 0 <= q < k && (#[trigger] all@[q])@ == a {
                assert(seq_has(all@, a));
            }
        }
    }
    out
}

/// Whether every activity of `acts` has `ot` among its divergent types.
fn all_divergent(acts: &Vec<String>, object_type: &String, metadata: &LeafMetadataIndex) -> (r: bool)
    requires
        metadata.wf(),
    ensures
        r == forall|a: Seq<char>| #[trigger] seq_has(acts@, a) ==> metadata.div(a, object_type@),
{
    let mut k: usize = 0;
    while k < acts.len()
        invariant
            0 <= k <= acts@.len(),
            forall|q: int| 0 <= q < k ==> metadata.div((#[trigger] acts@[q])@, object_type@),
        decreases acts@.len() - k,
    {
        let ok = match lookup_set(&metadata.divergent, &acts[k]) {
            Some(types) => contains_string(types, object_type),
            None => false,
        };
        if !ok {
            proof {
                assert(seq_has(acts@, acts@[k as int]@));
            }
            return false;
        }
        k += 1;
    }
    proof {
        assert forall|a: Seq<char>| #[trigger] seq_has(acts@, a) implies metadata.div(a, object_type@) by {
            let q = choose|q: int| 0 <= q < acts@.len() && (#[trigger] acts@[q])@ == a;
        }
    }
    true
}

/// Whether the subtree has an activity related to `ot` and all such activities diverge for `ot`.
pub fn is_fully_divergent_subtree(node: &OCPTNode, object_type: &String, metadata: &LeafMetadataIndex) -> (r: bool)
    requires
        metadata.wf(),
    ensures
        r == fully_divergent(*node, object_type@, *metadata),
{
    let related = subtree_related_visible_activities(node, object_type, metadata);
    if related.len() == 0 {
        proof {
            if exists|a: Seq<char>| #[trigger] related_visible(*node, object_type@, *metadata, a) {
                let a = choose|a: Seq<char>| #[trigger] related_visible(*node, object_type@, *metadata, a);
                assert(seq_has(related@, a));
            }
        }
        return false;
    }
    proof {
        assert(seq_has(related@, related@[0]@));
        assert(related_visible(*node, object_type@, *metadata, related@[0]@));
    }
    let r = all_divergent(&related, object_type, metadata);
    proof {
        if r {
            assert forall|a: Seq<char>| #[trigger] related_visible(*node, object_type@, *metadata, a) implies metadata.div(a, object_type@) by {
                assert(seq_has(related@, a));
            }
        } else {
            let a = choose|a: Seq<char>| #[trigger] seq_has(related@, a) && !metadata.div(a, object_type@);
            assert(related_visible(*node, object_type@, *metadata, a));
        }
    }
    r
}

/// The node is a tau leaf related to `ot`.
pub open spec fn is_related_tau(node: OCPTNode, ot: Seq<char>) -> bool {
    match node {
        OCPTNode::Leaf(l) => l.activity_label is Tau && seq_has(l.related_ob_types@, ot),
        OCPTNode::Operator(_) => false,
    }
}

/// Some child is a tau leaf related to `ot`.
pub open spec fn has_optional_tau(children: Seq<OCPTNode>, ot: Seq<char>) -> bool {
    exists|k: int| 0 <= k < children.len() && is_related_tau(#[trigger] children[k], ot)
}

/// Whether some child is a tau leaf related to `ot`.
pub fn has_optional_tau_child(children: &[OCPTNode], object_type: &String) -> (r: bool)
    ensures
        r == has_optional_tau(children@, object_type@),
{
    let mut k: usize = 0;
    while k < children.len()
        invariant
            0 <= k <= children@.len(),
            forall|q: int| 0 <= q < k ==> !is_related_tau(#[trigger] children@[q], object_type@),
        decreases children@.len() - k,
    {
        match &children[k] {
            OCPTNode::Leaf(leaf) => {
                let is_tau = match &leaf.activity_label {
                    OCPTLeafLabel::Tau => true,
                    OCPTLeafLabel::Activity(_) => false,
                };
                if is_tau && contains_string(&leaf.related_ob_types, object_type) {
                    return true;
                }
            },
            OCPTNode::Operator(_) => {},
        }
        k += 1;
    }
    false
}


/// A tau leaf.
pub open spec fn tau_t() -> PTree {
    PTree::Leaf(None)
}

/// Leaves for the activities, in order.
pub open spec fn activity_leaves(acts: Seq<Seq<char>>) -> Seq<PTree> {
    acts.map_values(|a: Seq<char>| PTree::Leaf(Some(a)))
}

/// A loop that redoes a choice between the activities: `loop(tau, xor(a1, ..., an))`
/// with the activities in increasing order.
pub open spec fn div_loop(acts: Set<Seq<char>>) -> PTree {
    PTree::Op(OperatorType::Loop, seq![tau_t(), PTree::Op(OperatorType::ExclusiveChoice, activity_leaves(sorted_of(acts)))])
}

/// The children of an operator node (empty for a leaf).
pub open spec fn children_of(node: OCPTNode) -> Seq<OCPTNode> {
    match node {
        OCPTNode::Leaf(_) => Seq::empty(),
        OCPTNode::Operator(op) => op.children@,
    }
}

/// Puts a sequence of projected trees in front of a projection result.
pub open spec fn prepend(front: Seq<PTree>, rest: Result<Seq<PTree>, ConvertOcptToOcpnError>) -> Result<Seq<PTree>, ConvertOcptToOcpnError> {
    match rest {
        Ok(r) => Ok(front + r),
        Err(e) => Err(e),
    }
}

/// Wraps projected children into an operator.
pub open spec fn wrap_op(t: OperatorType, cs: Result<Seq<PTree>, ConvertOcptToOcpnError>) -> Result<PTree, ConvertOcptToOcpnError> {
    match cs {
        Ok(c) => Ok(PTree::Op(t, c)),
        Err(e) => Err(e),
    }
}

/// The projection of a tree onto object type `ot`.
pub open spec fn project(node: OCPTNode, ot: Seq<char>, meta: LeafMetadataIndex) -> Result<PTree, ConvertOcptToOcpnError>
    decreases node, child_count(node) + 1,
{
    match node {
        OCPTNode::Leaf(l) => match l.activity_label {
            OCPTLeafLabel::Tau => Ok(tau_t()),
            OCPTLeafLabel::Activity(a) => if seq_has(l.related_ob_types@, ot) { Ok(PTree::Leaf(Some(a@))) } else { Ok(tau_t()) },
        },
        OCPTNode::Operator(op) => {
            let n = op.children@.len();
            if op.operator_type is IdentityRelation {
                Err(ConvertOcptToOcpnError::UnsupportedIdentityRelations)
            } else if op.operator_type is Loop && n != 2 {
                Err(ConvertOcptToOcpnError::MalformedLoop { child_count: n as usize })
            } else if n == 1 {
                project(op.children@[0], ot, meta)
            } else if related_acts(node, ot, meta).is_empty() {
                Ok(tau_t())
            } else if forall|a: Seq<char>| #[trigger] related_visible(node, ot, meta, a) ==> meta.div(a, ot) {
                Ok(div_loop(related_acts(node, ot, meta)))
            } else {
                match op.operator_type {
                    OCPTOperatorType::Concurrency => wrap_op(OperatorType::Concurrency, project_children(node, n as int, ot, meta)),
                    OCPTOperatorType::Loop(_) => wrap_op(OperatorType::Loop, project_children(node, n as int, ot, meta)),
                    OCPTOperatorType::Sequence => wrap_op(OperatorType::Sequence, project_sequence(node, 0, ot, meta)),
                    OCPTOperatorType::ExclusiveChoice => wrap_op(
                        OperatorType::ExclusiveChoice,
                        prepend(
                            xor_divergent_part(node, ot, meta),
                            match project_filtered(node, n as int, ot, meta) {
                                Ok(cs) => Ok(cs + if has_optional_tau(op.children@, ot) { seq![tau_t()] } else { Seq::empty() }),
                                Err(e) => Err(e),
                            },
                        ),
                    ),
                    OCPTOperatorType::IdentityRelation(_) => Err(ConvertOcptToOcpnError::UnsupportedIdentityRelations),
                }
            }
        },
    }
}

/// The projections of the first `k` children, or the first error among them.
pub open spec fn project_children(node: OCPTNode, k: int, ot: Seq<char>, meta: LeafMetadataIndex) -> Result<Seq<PTree>, ConvertOcptToOcpnError>
    decreases node, (if k > 0 { k as nat } else { 0nat }),
{
    if k <= 0 || k > children_of(node).len() {
        Ok(Seq::empty())
    } else {
        match project_children(node, k - 1, ot, meta) {
            Err(e) => Err(e),
            Ok(cs) => match project(children_of(node)[k - 1], ot, meta) {
                Err(e) => Err(e),
                Ok(t) => Ok(cs.push(t)),
            },
        }
    }
}

/// Child `k` diverges fully for `ot`.
pub open spec fn child_diverging(node: OCPTNode, k: int, ot: Seq<char>, meta: LeafMetadataIndex) -> bool {
    fully_divergent(children_of(node)[k], ot, meta)
}

/// The first index after `i` whose child does not diverge fully (or the number of children).
pub open spec fn run_end(node: OCPTNode, i: int, ot: Seq<char>, meta: LeafMetadataIndex) -> int
    decreases children_of(node).len() - i,
{
    if i + 1 < children_of(node).len() && child_diverging(node, i + 1, ot, meta) {
        run_end(node, i + 1, ot, meta)
    } else {
        i + 1
    }
}

/// The activities related to `ot` of the children `i..j`.
pub open spec fn run_acts(node: OCPTNode, i: int, j: int, ot: Seq<char>, meta: LeafMetadataIndex) -> Set<Seq<char>> {
    Set::new(|a: Seq<char>| exists|k: int| i <= k < j && #[trigger] related_visible(children_of(node)[k], ot, meta, a))
}

/// The projections of the children of a sequence from `i` on: each run of fully
/// divergent children becomes one divergence loop over their related activities.
pub open spec fn project_sequence(node: OCPTNode, i: int, ot: Seq<char>, meta: LeafMetadataIndex) -> Result<Seq<PTree>, ConvertOcptToOcpnError>
    decreases node, (if i < children_of(node).len() { (children_of(node).len() - i) as nat } else { 0nat }),
{
    if i < 0 || i >= children_of(node).len() {
        Ok(Seq::empty())
    } else if child_diverging(node, i, ot, meta) {
        let j = run_end(node, i, ot, meta);
        if j <= i {
            Ok(Seq::empty())
        } else {
            prepend(seq![div_loop(run_acts(node, i, j, ot, meta))], project_sequence(node, j, ot, meta))
        }
    } else {
        match project(children_of(node)[i], ot, meta) {
            Err(e) => Err(e),
            Ok(t) => prepend(seq![t], project_sequence(node, i + 1, ot, meta)),
        }
    }
}

/// Child `k` has an activity related to `ot` without diverging fully.
pub open spec fn child_non_diverging(node: OCPTNode, k: int, ot: Seq<char>, meta: LeafMetadataIndex) -> bool {
    !related_acts(children_of(node)[k], ot, meta).is_empty() && !child_diverging(node, k, ot, meta)
}

/// The projections of the non-diverging children among the first `k`, or the first error.
pub open spec fn project_filtered(node: OCPTNode, k: int, ot: Seq<char>, meta: LeafMetadataIndex) -> Result<Seq<PTree>, ConvertOcptToOcpnError>
    decreases node, (if k > 0 { k as nat } else { 0nat }),
{
    if k <= 0 || k > children_of(node).len() {
        Ok(Seq::empty())
    } else {
        match project_filtered(node, k - 1, ot, meta) {
            Err(e) => Err(e),
            Ok(cs) => if child_non_diverging(node, k - 1, ot, meta) {
                match project(children_of(node)[k - 1], ot, meta) {
                    Err(e) => Err(e),
                    Ok(t) => Ok(cs.push(t)),
                }
            } else {
                Ok(cs)
            },
        }
    }
}

/// The activities related to `ot` of the fully diverging children of a choice.
pub open spec fn xor_divergent_acts(node: OCPTNode, ot: Seq<char>, meta: LeafMetadataIndex) -> Set<Seq<char>> {
    Set::new(|a: Seq<char>| exists|k: int| 0 <= k < children_of(node).len() && child_diverging(node, k, ot, meta)
        && #[trigger] related_visible(children_of(node)[k], ot, meta, a))
}

/// A divergence loop for the fully diverging children of a choice, if there are any.
pub open spec fn xor_divergent_part(node: OCPTNode, ot: Seq<char>, meta: LeafMetadataIndex) -> Seq<PTree> {
    if xor_divergent_acts(node, ot, meta).is_empty() {
        Seq::empty()
    } else {
        seq![div_loop(xor_divergent_acts(node, ot, meta))]
    }
}


/// The views of a sequence of nodes.
pub open spec fn node_views(cs: Seq<Node>) -> Seq<PTree> {
    cs.map_values(|n: Node| n@)
}

/// A tau leaf.
pub fn tau_node() -> (r: Node)
    ensures
        r@ == tau_t(),
{
    Node::Leaf(Leaf { activity_label: LeafLabel::Tau })
}

/// A leaf for the activity.
pub fn activity_node(label: &String) -> (r: Node)
    ensures
        r@ == PTree::Leaf(Some(label@)),
{
    Node::Leaf(Leaf { activity_label: LeafLabel::Activity(label.clone()) })
}

/// An operator node with the given children.
pub fn operator_node(operator_type: OperatorType, children: Vec<Node>) -> (r: Node)
    ensures
        r@ == PTree::Op(operator_type, node_views(children@)),
{
    let ghost cv = children@;
    let r = Node::Operator(Operator { operator_type, children });
    proof {
        let op = r->Operator_0;
        assert(op.children@ == cv);
        let s2 = r@->Op_1;
        assert(s2 =~= node_views(cv));
    }
    r
}

/// `loop(tau, xor(a1, ..., an))` for the activities of the strictly increasing `acts`.
pub fn divergence_loop_node(acts: &Vec<String>) -> (r: Node)
    requires
        sorted_strict(acts@),
    ensures
        r@ == div_loop(Set::new(|a: Seq<char>| seq_has(acts@, a))),
{
    let mut leaves_out: Vec<Node> = Vec::new();
    let mut k: usize = 0;
    while k < acts.len()
        invariant
            0 <= k <= acts@.len(),
            node_views(leaves_out@) == activity_leaves(views(acts@).subrange(0, k as int)),
        decreases acts@.len() - k,
    {
        let leaf = activity_node(&acts[k]);
        let ghost before = leaves_out@;
        leaves_out.push(leaf);
        proof {
            let target = activity_leaves(views(acts@).subrange(0, k + 1));
            let prev = activity_leaves(views(acts@).subrange(0, k as int));
            assert(target.len() == k + 1);
            assert forall|i: int| 0 <= i < k + 1 implies node_views(leaves_out@)[i] == target[i] by {
                if i < k {
                    assert(leaves_out@[i] == before[i]);
                    assert(node_views(before)[i] == prev[i]);
                    assert(views(acts@).subrange(0, k + 1)[i] == views(acts@).subrange(0, k as int)[i]);
                } else {
                    assert(views(acts@).subrange(0, k + 1)[i] == acts@[k as int]@);
                }
            }
            assert(node_views(leaves_out@) =~= target);
        }
        k += 1;
    }
    assert(views(acts@).subrange(0, acts@.len() as int) =~= views(acts@));
    proof {
        lemma_sorted_of(acts@, Set::new(|a: Seq<char>| seq_has(acts@, a)));
    }
    let xor = operator_node(OperatorType::ExclusiveChoice, leaves_out);
    let mut children: Vec<Node> = Vec::new();
    children.push(tau_node());
    children.push(xor);
    let r = operator_node(OperatorType::Loop, children);
    assert(node_views(children@) =~= seq![tau_t(), PTree::Op(OperatorType::ExclusiveChoice, activity_leaves(views(acts@)))]);
    r
}

/// A projection result as a value.
pub open spec fn result_view(r: Result<Node, ConvertOcptToOcpnError>) -> Result<PTree, ConvertOcptToOcpnError> {
    match r {
        Ok(n) => Ok(n@),
        Err(e) => Err(e),
    }
}

proof fn lemma_children_err_stays(node: OCPTNode, k: int, n: int, ot: Seq<char>, meta: LeafMetadataIndex)
    requires
        0 <= k <= n <= children_of(node).len(),
        project_children(node, k, ot, meta) is Err,
    ensures
        project_children(node, n, ot, meta) == project_children(node, k, ot, meta),
    decreases n - k,
{
    if n > k {
        lemma_children_err_stays(node, k, n - 1, ot, meta);
    }
}

proof fn lemma_filtered_err_stays(node: OCPTNode, k: int, n: int, ot: Seq<char>, meta: LeafMetadataIndex)
    requires
        0 <= k <= n <= children_of(node).len(),
        project_filtered(node, k, ot, meta) is Err,
    ensures
        project_filtered(node, n, ot, meta) == project_filtered(node, k, ot, meta),
    decreases n - k,
{
    if n > k {
        lemma_filtered_err_stays(node, k, n - 1, ot, meta);
    }
}


/// The children of `node` are `op.children`.
pub open spec fn is_op_of(node: OCPTNode, op: crate::ocpt::OCPTOperator) -> bool {
    node == OCPTNode::Operator(op)
}

/// Projects the tree onto object type `object_type`: leaves unrelated to the type
/// become tau, subtrees whose related activities all diverge become a loop over a
/// choice of those activities, and runs of diverging children of a sequence (and
/// the diverging children of a choice) are merged into one such loop.
pub fn project_ocpt_for_object_type(node: &OCPTNode, object_type: &String, metadata: &LeafMetadataIndex) -> (r: Result<ProcessTree, ConvertOcptToOcpnError>)
    requires
        metadata.wf(),
    ensures
        match r {
            Ok(t) => project(*node, object_type@, *metadata) == Ok::<PTree, ConvertOcptToOcpnError>(t@),
            Err(e) => project(*node, object_type@, *metadata) == Err::<PTree, ConvertOcptToOcpnError>(e),
        },
{
    match project_node(node, object_type, metadata) {
        Ok(n) => Ok(ProcessTree { root: n }),
        Err(e) => Err(e),
    }
}

fn project_node(node: &OCPTNode, ot: &String, meta: &LeafMetadataIndex) -> (r: Result<Node, ConvertOcptToOcpnError>)
    requires
        meta.wf(),
    ensures
        result_view(r) == project(*node, ot@, *meta),
    decreases node,
{
    match node {
        OCPTNode::Leaf(leaf) => match &leaf.activity_label {
            OCPTLeafLabel::Tau => Ok(tau_node()),
            OCPTLeafLabel::Activity(a) => {
                if contains_string(&leaf.related_ob_types, ot) {
                    Ok(activity_node(a))
                } else {
                    Ok(tau_node())
                }
            },
        },
        OCPTNode::Operator(op) => {
            let n = op.children.len();
            match &op.operator_type {
                OCPTOperatorType::IdentityRelation(_) => {
                    return Err(ConvertOcptToOcpnError::UnsupportedIdentityRelations);
                },
                OCPTOperatorType::Loop(_) => {
                    if n != 2 {
                        return Err(ConvertOcptToOcpnError::MalformedLoop { child_count: n });
                    }
                },
                _ => {},
            }
            if n == 1 {
                return project_node(&op.children[0], ot, meta);
            }
            let related = subtree_related_visible_activities(node, ot, meta);
            if related.len() == 0 {
                proof {
                    assert(related_acts(*node, ot@, *meta) =~= Set::empty()) by {
                        assert forall|a: Seq<char>| !related_acts(*node, ot@, *meta).contains(a) by {
                            if related_visible(*node, ot@, *meta, a) {
                                assert(seq_has(related@, a));
                            }
                        }
                    }
                }
                return Ok(tau_node());
            }
            proof {
                assert(seq_has(related@, related@[0]@));
                assert(related_acts(*node, ot@, *meta).contains(related@[0]@));
            }
            if all_divergent(&related, ot, meta) {
                let r = divergence_loop_node(&related);
                proof {
                    assert(Set::new(|a: Seq<char>| seq_has(related@, a)) =~= related_acts(*node, ot@, *meta));
                    assert forall|a: Seq<char>| #[trigger] related_visible(*node, ot@, *meta, a) implies meta.div(a, ot@) by {
                        assert(seq_has(related@, a));
                    }
                }
                return Ok(r);
            }
            proof {
                let a = choose|a: Seq<char>| #[trigger] seq_has(related@, a) && !meta.div(a, ot@);
                assert(related_visible(*node, ot@, *meta, a));
            }
            match &op.operator_type {
                OCPTOperatorType::Concurrency => {
                    match project_children_exec(node, op, ot, meta) {
                        Ok(cs) => Ok(operator_node(OperatorType::Concurrency, cs)),
                        Err(e) => Err(e),
                    }
                },
                OCPTOperatorType::Loop(_) => {
                    match project_children_exec(node, op, ot, meta) {
                        Ok(cs) => Ok(operator_node(OperatorType::Loop, cs)),
                        Err(e) => Err(e),
                    }
                },
                OCPTOperatorType::Sequence => {
                    match project_sequence_exec(node, op, ot, meta) {
                        Ok(cs) => Ok(operator_node(OperatorType::Sequence, cs)),
                        Err(e) => Err(e),
                    }
                },
                OCPTOperatorType::ExclusiveChoice => {
                    match project_xor_exec(node, op, ot, meta) {
                        Ok(cs) => Ok(operator_node(OperatorType::ExclusiveChoice, cs)),
                        Err(e) => Err(e),
                    }
                },
                OCPTOperatorType::IdentityRelation(_) => Err(ConvertOcptToOcpnError::UnsupportedIdentityRelations),
            }
        },
    }
}

/// A sequence projection result as a value.
pub open spec fn seq_result_view(r: Result<Vec<Node>, ConvertOcptToOcpnError>) -> Result<Seq<PTree>, ConvertOcptToOcpnError> {
    match r {
        Ok(cs) => Ok(node_views(cs@)),
        Err(e) => Err(e),
    }
}

fn project_children_exec(node: &OCPTNode, op: &crate::ocpt::OCPTOperator, ot: &String, meta: &LeafMetadataIndex) -> (r: Result<Vec<Node>, ConvertOcptToOcpnError>)
    requires
        meta.wf(),
        is_op_of(*node, *op),
    ensures
        seq_result_view(r) == project_children(*node, op.children@.len() as int, ot@, *meta),
    decreases node, 0nat,
{
    let mut out: Vec<Node> = Vec::new();
    let mut k: usize = 0;
    assert(node_views(out@) =~= Seq::<PTree>::empty());
    while k < op.children.len()
        invariant
            0 <= k <= op.children@.len(),
            is_op_of(*node, *op),
            project_children(*node, k as int, ot@, *meta) == Ok::<Seq<PTree>, ConvertOcptToOcpnError>(node_views(out@)),
        decreases op.children@.len() - k,
    {
        match project_node(&op.children[k], ot, meta) {
            Ok(t) => {
                let ghost before = out@;
                out.push(t);
                assert(node_views(out@) =~= node_views(before).push(t@));
            },
            Err(e) => {
                proof {
                    lemma_children_err_stays(*node, k + 1, op.children@.len() as int, ot@, *meta);
                }
                return Err(e);
            },
        }
        k += 1;
    }
    Ok(out)
}

fn project_sequence_exec(node: &OCPTNode, op: &crate::ocpt::OCPTOperator, ot: &String, meta: &LeafMetadataIndex) -> (r: Result<Vec<Node>, ConvertOcptToOcpnError>)
    requires
        meta.wf(),
        is_op_of(*node, *op),
    ensures
        seq_result_view(r) == project_sequence(*node, 0, ot@, *meta),
    decreases node, 0nat,
{
    let n = op.children.len();
    let mut out: Vec<Node> = Vec::new();
    let mut index: usize = 0;
    while index < n
        invariant
            0 <= index <= n,
            n == op.children@.len(),
            is_op_of(*node, *op),
            project_sequence(*node, 0, ot@, *meta) == prepend(node_views(out@), project_sequence(*node, index as int, ot@, *meta)),
        decreases n - index,
    {
        let child = &op.children[index];
        if is_fully_divergent_subtree(child, ot, meta) {
            let mut acts = subtree_related_visible_activities(child, ot, meta);
            let start = index;
            index += 1;
            while index < n && is_fully_divergent_subtree(&op.children[index], ot, meta)
                invariant
                    start < index <= n,
                    n == op.children@.len(),
                    is_op_of(*node, *op),
                    sorted_strict(acts@),
                    run_end(*node, start as int, ot@, *meta) == run_end(*node, index - 1, ot@, *meta),
                    forall|a: Seq<char>| #[trigger] seq_has(acts@, a) <==> run_acts(*node, start as int, index as int, ot@, *meta).contains(a),
                decreases n - index,
            {
                let more = subtree_related_visible_activities(&op.children[index], ot, meta);
                union_into(&mut acts, &more);
                proof {
                    assert forall|a: Seq<char>| #[trigger] seq_has(acts@, a) <==> run_acts(*node, start as int, index + 1, ot@, *meta).contains(a) by {
                        if run_acts(*node, start as int, index + 1, ot@, *meta).contains(a) {
                            let k = choose|k: int| start <= k < index + 1 && #[trigger] related_visible(children_of(*node)[k], ot@, *meta, a);
                            if k < index {
                                assert(run_acts(*node, start as int, index as int, ot@, *meta).contains(a));
                            } else {
                                assert(seq_has(more@, a));
                            }
                        }
                        if run_acts(*node, start as int, index as int, ot@, *meta).contains(a) {
                            let k = choose|k: int| start <= k < index && #[trigger] related_visible(children_of(*node)[k], ot@, *meta, a);
                            assert(run_acts(*node, start as int, index + 1, ot@, *meta).contains(a));
                        }
                        if seq_has(more@, a) {
                            assert(related_visible(children_of(*node)[index as int], ot@, *meta, a));
                            assert(run_acts(*node, start as int, index + 1, ot@, *meta).contains(a));
                        }
                    }
                }
                index += 1;
            }
            proof {
                assert(run_end(*node, start as int, ot@, *meta) == index);
                assert(project_sequence(*node, start as int, ot@, *meta) == prepend(
                    seq![div_loop(run_acts(*node, start as int, index as int, ot@, *meta))],
                    project_sequence(*node, index as int, ot@, *meta),
                ));
                assert(Set::new(|a: Seq<char>| seq_has(acts@, a)) =~= run_acts(*node, start as int, index as int, ot@, *meta));
            }
            let d = divergence_loop_node(&acts);
            let ghost before = out@;
            out.push(d);
            proof {
                let rest = project_sequence(*node, index as int, ot@, *meta);
                assert(node_views(out@) =~= node_views(before) + seq![d@]);
                match rest {
                    Ok(rs) => {
                        assert(node_views(before) + (seq![d@] + rs) =~= (node_views(before) + seq![d@]) + rs);
                    },
                    Err(_) => {},
                }
            }
            continue;
        }
        proof {
            assert(!child_diverging(*node, index as int, ot@, *meta));
        }
        match project_node(child, ot, meta) {
            Ok(t) => {
                let ghost before = out@;
                out.push(t);
                proof {
                    let rest = project_sequence(*node, index + 1, ot@, *meta);
                    assert(node_views(out@) =~= node_views(before) + seq![t@]);
                    match rest {
                        Ok(rs) => {
                            assert(node_views(before) + (seq![t@] + rs) =~= (node_views(before) + seq![t@]) + rs);
                        },
                        Err(_) => {},
                    }
                }
            },
            Err(e) => {
                return Err(e);
            },
        }
        index += 1;
    }
    assert(node_views(out@) + Seq::<PTree>::empty() =~= node_views(out@));
    Ok(out)
}

fn project_xor_exec(node: &OCPTNode, op: &crate::ocpt::OCPTOperator, ot: &String, meta: &LeafMetadataIndex) -> (r: Result<Vec<Node>, ConvertOcptToOcpnError>)
    requires
        meta.wf(),
        is_op_of(*node, *op),
    ensures
        seq_result_view(r) == prepend(
            xor_divergent_part(*node, ot@, *meta),
            match project_filtered(*node, op.children@.len() as int, ot@, *meta) {
                Ok(cs) => Ok(cs + if has_optional_tau(op.children@, ot@) { seq![tau_t()] } else { Seq::empty() }),
                Err(e) => Err(e),
            },
        ),
    decreases node, 0nat,
{
    let n = op.children.len();
    // the activities of the fully diverging children
    let mut div_acts: Vec<String> = Vec::new();
    let mut k: usize = 0;
    while k < n
        invariant
            0 <= k <= n,
            n == op.children@.len(),
            is_op_of(*node, *op),
            sorted_strict(div_acts@),
            forall|a: Seq<char>| #[trigger] seq_has(div_acts@, a) <==> exists|q: int| 0 <= q < k && child_diverging(*node, q, ot@, *meta)
                && #[trigger] related_visible(children_of(*node)[q], ot@, *meta, a),
        decreases n - k,
    {
        if is_fully_divergent_subtree(&op.children[k], ot, meta) {
            let more = subtree_related_visible_activities(&op.children[k], ot, meta);
            let ghost before = div_acts@;
            union_into(&mut div_acts, &more);
            proof {
                assert forall|a: Seq<char>| #[trigger] seq_has(div_acts@, a) <==> exists|q: int| 0 <= q < k + 1 && child_diverging(*node, q, ot@, *meta)
                    && #[trigger] related_visible(children_of(*node)[q], ot@, *meta, a) by {
                    if exists|q: int| 0 <= q < k + 1 && child_diverging(*node, q, ot@, *meta) && #[trigger] related_visible(children_of(*node)[q], ot@, *meta, a) {
                        let q = choose|q: int| 0 <= q < k + 1 && child_diverging(*node, q, ot@, *meta) && #[trigger] related_visible(children_of(*node)[q], ot@, *meta, a);
                        if q < k {
                            assert(seq_has(before, a));
                        } else {
                            assert(seq_has(more@, a));
                        }
                    }
                    if seq_has(before, a) {
                        let q = choose|q: int| 0 <= q < k && child_diverging(*node, q, ot@, *meta) && #[trigger] related_visible(children_of(*node)[q], ot@, *meta, a);
                        assert(exists|q2: int| 0 <= q2 < k + 1 && child_diverging(*node, q2, ot@, *meta) && #[trigger] related_visible(children_of(*node)[q2], ot@, *meta, a));
                    }
                    if seq_has(more@, a) {
                        assert(related_visible(children_of(*node)[k as int], ot@, *meta, a));
                        assert(exists|q2: int| 0 <= q2 < k + 1 && child_diverging(*node, q2, ot@, *meta) && #[trigger] related_visible(children_of(*node)[q2], ot@, *meta, a));
                    }
                }
            }
        } else {
            proof {
                assert forall|a: Seq<char>| #[trigger] seq_has(div_acts@, a) <==> exists|q: int| 0 <= q < k + 1 && child_diverging(*node, q, ot@, *meta)
                    && #[trigger] related_visible(children_of(*node)[q], ot@, *meta, a) by {
                    if exists|q: int| 0 <= q < k + 1 && child_diverging(*node, q, ot@, *meta) && #[trigger] related_visible(children_of(*node)[q], ot@, *meta, a) {
                        let q = choose|q: int| 0 <= q < k + 1 && child_diverging(*node, q, ot@, *meta) && #[trigger] related_visible(children_of(*node)[q], ot@, *meta, a);
                        assert(q < k);
                    }
                    if seq_has(div_acts@, a) {
                        let q = choose|q: int| 0 <= q < k && child_diverging(*node, q, ot@, *meta) && #[trigger] related_visible(children_of(*node)[q], ot@, *meta, a);
                        assert(exists|q2: int| 0 <= q2 < k + 1 && child_diverging(*node, q2, ot@, *meta) && #[trigger] related_visible(children_of(*node)[q2], ot@, *meta, a));
                    }
                }
            }
        }
        k += 1;
    }
    proof {
        assert(Set::new(|a: Seq<char>| seq_has(div_acts@, a)) =~= xor_divergent_acts(*node, ot@, *meta));
    }
    let mut front: Vec<Node> = Vec::new();
    if div_acts.len() > 0 {
        front.push(divergence_loop_node(&div_acts));
        proof {
            assert(seq_has(div_acts@, div_acts@[0]@));
            assert(xor_divergent_acts(*node, ot@, *meta).contains(div_acts@[0]@));
            assert(node_views(front@) =~= xor_divergent_part(*node, ot@, *meta));
        }
    } else {
        proof {
            assert(xor_divergent_acts(*node, ot@, *meta) =~= Set::empty()) by {
                assert forall|a: Seq<char>| !xor_divergent_acts(*node, ot@, *meta).contains(a) by {
                    if xor_divergent_acts(*node, ot@, *meta).contains(a) {
                        assert(seq_has(div_acts@, a));
                    }
                }
            }
            assert(node_views(front@) =~= xor_divergent_part(*node, ot@, *meta));
        }
    }
    // the non-diverging children, projected
    let mut rest: Vec<Node> = Vec::new();
    let mut k: usize = 0;
    assert(node_views(rest@) =~= Seq::<PTree>::empty());
    while k < n
        invariant
            0 <= k <= n,
            n == op.children@.len(),
            is_op_of(*node, *op),
            project_filtered(*node, k as int, ot@, *meta) == Ok::<Seq<PTree>, ConvertOcptToOcpnError>(node_views(rest@)),
        decreases n - k,
    {
        let child = &op.children[k];
        let child_related = subtree_related_visible_activities(child, ot, meta);
        let diverging = is_fully_divergent_subtree(child, ot, meta);
        proof {
            if child_related@.len() > 0 {
                assert(seq_has(child_related@, child_related@[0]@));
                assert(related_acts(children_of(*node)[k as int], ot@, *meta).contains(child_related@[0]@));
            } else {
                assert(related_acts(children_of(*node)[k as int], ot@, *meta) =~= Set::empty()) by {
                    assert forall|a: Seq<char>| !related_acts(children_of(*node)[k as int], ot@, *meta).contains(a) by {
                        if related_acts(children_of(*node)[k as int], ot@, *meta).contains(a) {
                            assert(seq_has(child_related@, a));
                        }
                    }
                }
            }
        }
        if child_related.len() > 0 && !diverging {
            match project_node(child, ot, meta) {
                Ok(t) => {
                    let ghost before = rest@;
                    rest.push(t);
                    assert(node_views(rest@) =~= node_views(before).push(t@));
                },
                Err(e) => {
                    proof {
                        lemma_filtered_err_stays(*node, k + 1, n as int, ot@, *meta);
                        match xor_divergent_part(*node, ot@, *meta).len() {
                            _ => {},
                        }
                    }
                    return Err(e);
                },
            }
        }
        k += 1;
    }
    let optional_tau = has_optional_tau_child(op.children.as_slice(), ot);
    let ghost rest_view = node_views(rest@);
    if optional_tau {
        rest.push(tau_node());
    }
    proof {
        let tail = if has_optional_tau(op.children@, ot@) { seq![tau_t()] } else { Seq::<PTree>::empty() };
        assert(node_views(rest@) =~= rest_view + tail);
    }
    let mut all: Vec<Node> = front;
    let ghost fv = node_views(all@);
    all.append(&mut rest);
    proof {
        let tail = if has_optional_tau(op.children@, ot@) { seq![tau_t()] } else { Seq::<PTree>::empty() };
        assert(node_views(all@) =~= fv + (rest_view + tail));
    }
    Ok(all)
}

/// Some leaf of the tree is an activity leaf labelled `a` that converges for `ot`.
pub open spec fn converges_at(ocpt: OCPT, ot: Seq<char>, a: Seq<char>) -> bool {
    exists|k: int| 0 <= k < leaves(ocpt.root).len() && is_activity_leaf(#[trigger] leaves(ocpt.root)[k], a)
        && seq_has(leaves(ocpt.root)[k].convergent_ob_types@, ot)
}

/// The activities whose leaves converge for `object_type`, in increasing order.
pub fn collect_convergent_activities(ocpt: &OCPT, object_type: &String) -> (r: Vec<String>)
    ensures
        sorted_strict(r@),
        forall|a: Seq<char>| #[trigger] seq_has(r@, a) <==> converges_at(*ocpt, object_type@, a),
{
    let ls = find_all_leaves(&ocpt.root);
    let ghost lv = leaves(ocpt.root);
    let mut out: Vec<String> = Vec::new();
    let mut k: usize = 0;
    while k < ls.len()
        invariant
            0 <= k <= ls@.len(),
            ls@.len() == lv.len(),
            lv == leaves(ocpt.root),
            forall|i: int| 0 <= i < ls@.len() ==> *(#[trigger] ls@[i]) == lv[i],
            sorted_strict(out@),
            forall|a: Seq<char>| #[trigger] seq_has(out@, a) <==> exists|q: int| 0 <= q < k && is_activity_leaf(#[trigger] lv[q], a)
                && seq_has(lv[q].convergent_ob_types@, object_type@),
        decreases ls@.len() - k,
    {
        let leaf = ls[k];
        assert(*leaf == lv[k as int]);
        if let OCPTLeafLabel::Activity(activity) = &leaf.activity_label {
            if contains_string(&leaf.convergent_ob_types, object_type) {
                insert_sorted(&mut out, activity);
            }
        }
        proof {
            assert forall|a: Seq<char>| #[trigger] seq_has(out@, a) <==> exists|q: int| 0 <= q < k + 1 && is_activity_leaf(#[trigger] lv[q], a)
                && seq_has(lv[q].convergent_ob_types@, object_type@) by {
                if exists|q: int| 0 <= q < k + 1 && is_activity_leaf(#[trigger] lv[q], a) && seq_has(lv[q].convergent_ob_types@, object_type@) {
                    let q = choose|q: int| 0 <= q < k + 1 && is_activity_leaf(#[trigger] lv[q], a) && seq_has(lv[q].convergent_ob_types@, object_type@);
                    if q < k {
                        assert(exists|q2: int| 0 <= q2 < k && is_activity_leaf(#[trigger] lv[q2], a) && seq_has(lv[q2].convergent_ob_types@, object_type@));
                    }
                }
                if exists|q: int| 0 <= q < k && is_activity_leaf(#[trigger] lv[q], a) && seq_has(lv[q].convergent_ob_types@, object_type@) {
                    let q = choose|q: int| 0 <= q < k && is_activity_leaf(#[trigger] lv[q], a) && seq_has(lv[q].convergent_ob_types@, object_type@);
                    assert(exists|q2: int| 0 <= q2 < k + 1 && is_activity_leaf(#[trigger] lv[q2], a) && seq_has(lv[q2].convergent_ob_types@, object_type@));
                }
            }
        }
        k += 1;
    }
    out
}

/// An optional branch stays optional: where a choice has a silent child that
/// belongs to object type `ot`, a choice that its projection onto `ot` gives
/// ends with a silent child.
pub proof fn lemma_related_tau_keeps_choice_optional(node: OCPTNode, ot: Seq<char>, meta: LeafMetadataIndex, k: int, cs: Seq<PTree>)
    requires
        node matches OCPTNode::Operator(op) && op.operator_type is ExclusiveChoice && op.children@.len() >= 2,
        0 <= k < children_of(node).len(),
        children_of(node)[k] matches OCPTNode::Leaf(leaf) && leaf.activity_label is Tau && seq_has(leaf.related_ob_types@, ot),
        project(node, ot, meta) == Ok::<PTree, ConvertOcptToOcpnError>(PTree::Op(OperatorType::ExclusiveChoice, cs)),
    ensures
        cs.len() > 0,
        cs.last() == PTree::Leaf(None),
{
    let op = node->Operator_0;
    assert(is_related_tau(op.children@[k], ot));
    assert(has_optional_tau(op.children@, ot));
    let n = op.children@.len() as int;
    if !related_acts(node, ot, meta).is_empty() && !(forall|a: Seq<char>| #[trigger] related_visible(node, ot, meta, a) ==> meta.div(a, ot)) {
        match project_filtered(node, n, ot, meta) {
            Ok(fs) => {
                let front = xor_divergent_part(node, ot, meta);
                assert(cs == front + (fs + seq![tau_t()]));
                assert(cs.last() == tau_t());
            },
            Err(e) => {},
        }
    }
}

} // verus!
