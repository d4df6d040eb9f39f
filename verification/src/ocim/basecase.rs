//! The base case of the miner: a sublog of a single activity becomes a leaf, or
//! a loop of that leaf and a silent leaf where some object type repeats it.
use vstd::prelude::*;
use crate::ocim::auxiliary_methods::push_unique;
use crate::ocim::common_data::{GlobalData, LocalData};
use crate::ocim::model::{in_set_of, lookup_set, seq_has, strings_unique};
use crate::ocpt::{OCPTLeaf, OCPTLeafLabel, OCPTNode, OCPTOperator, OCPTOperatorType};

verus! {

/// `v` lists, each once, the object types that satisfy `p`.
pub open spec fn lists(v: Seq<String>, p: spec_fn(Seq<char>) -> bool) -> bool {
    strings_unique(v) && forall|t: Seq<char>| #[trigger] seq_has(v, t) <==> p(t)
}

/// Some object type related to `a`, not divergent for it, has an object in more
/// than one event (it lies in `multi_event_types`).
pub open spec fn repeats(g: GlobalData, a: Seq<char>, multi_event_types: Seq<String>) -> bool {
    exists|t: Seq<char>| #[trigger] g.rel(a, t) && seq_has(multi_event_types, t) && !g.div(a, t)
}

/// The leaf of activity `a`, annotated with the object types that the
/// interaction patterns give for it.
pub open spec fn activity_leaf(g: GlobalData, a: Seq<char>, leaf: OCPTLeaf) -> bool {
    &&& leaf.activity_label matches OCPTLeafLabel::Activity(x) && x@ == a
    &&& lists(leaf.related_ob_types@, |t: Seq<char>| g.rel(a, t))
    &&& lists(leaf.divergent_ob_types@, |t: Seq<char>| g.div(a, t))
    &&& lists(leaf.convergent_ob_types@, |t: Seq<char>| in_set_of(g.convergence@, a, t))
    &&& lists(leaf.deficient_ob_types@, |t: Seq<char>| in_set_of(g.deficiency@, a, t))
}

/// The silent leaf of a base-case loop: every object type of the sublog in each role.
pub open spec fn silent_leaf(l: LocalData, leaf: OCPTLeaf) -> bool {
    let all = |t: Seq<char>| seq_has(l.object_types@, t);
    &&& leaf.activity_label is Tau
    &&& lists(leaf.related_ob_types@, all)
    &&& lists(leaf.divergent_ob_types@, all)
    &&& lists(leaf.convergent_ob_types@, all)
    &&& lists(leaf.deficient_ob_types@, all)
}

/// A fresh random identifier: `uuid::Uuid::new_v4`, as a number.
/// Nothing is promised of the value.
#[verifier::external_body]
pub(crate) fn new_uuid() -> (r: u128) {
    uuid::Uuid::new_v4().as_u128()
}

/// The object types stored for `a` in `m`, each once (none where `a` has no entry).
fn types_for(m: &Vec<(String, Vec<String>)>, a: &String) -> (r: Vec<String>)
    requires
        crate::ocim::model::set_keys_unique(m@),
    ensures
        lists(r@, |t: Seq<char>| in_set_of(m@, a@, t)),
{
    let mut out: Vec<String> = Vec::new();
    match lookup_set(m, a) {
        None => {
            proof {
                assert forall|t: Seq<char>| #[trigger] seq_has(out@, t) <==> in_set_of(m@, a@, t) by {}
            }
        },
        Some(v) => {
            let mut i: usize = 0;
            while i < v.len()
                invariant
                    0 <= i <= v@.len(),
                    strings_unique(out@),
                    forall|t: Seq<char>| #![trigger seq_has(v@, t)] seq_has(v@, t) <==> in_set_of(m@, a@, t),
                    forall|t: Seq<char>| #[trigger] seq_has(out@, t) <==> exists|k: int| 0 <= k < i && (#[trigger] v@[k])@ == t,
                decreases v@.len() - i,
            {
                push_unique(&mut out, &v[i]);
                proof {
                    assert forall|t: Seq<char>| #[trigger] seq_has(out@, t) <==> exists|k: int| 0 <= k < i + 1 && (#[trigger] v@[k])@ == t by {
                        if t == v@[i as int]@ {
                            assert(v@[i as int]@ == t);
                        }
                        if exists|k: int| 0 <= k < i + 1 && (#[trigger] v@[k])@ == t {
                            let k = choose|k: int| 0 <= k < i + 1 && (#[trigger] v@[k])@ == t;
                            if k < i {
                                assert(exists|k2: int| 0 <= k2 < i && (#[trigger] v@[k2])@ == t);
                            }
                        }
                    }
                }
                i += 1;
            }
            proof {
                assert forall|t: Seq<char>| #[trigger] seq_has(out@, t) <==> in_set_of(m@, a@, t) by {
                    if seq_has(v@, t) {
                        let k = choose|k: int| 0 <= k < v@.len() && (#[trigger] v@[k])@ == t;
                    }
                }
            }
        },
    }
    out
}

/// A copy of the object types of the sublog, each once.
fn all_object_types(l: &LocalData) -> (r: Vec<String>)
    ensures
        lists(r@, |t: Seq<char>| seq_has(l.object_types@, t)),
{
    let mut out: Vec<String> = Vec::new();
    let mut i: usize = 0;
    while i < l.object_types.len()
        invariant
            0 <= i <= l.object_types@.len(),
            strings_unique(out@),
            forall|t: Seq<char>| #[trigger] seq_has(out@, t) <==> exists|k: int| 0 <= k < i && (#[trigger] l.object_types@[k])@ == t,
        decreases l.object_types@.len() - i,
    {
        push_unique(&mut out, &l.object_types[i]);
        proof {
            assert forall|t: Seq<char>| #[trigger] seq_has(out@, t) <==> exists|k: int| 0 <= k < i + 1 && (#[trigger] l.object_types@[k])@ == t by {
                if t == l.object_types@[i as int]@ {
                    assert(l.object_types@[i as int]@ == t);
                }
                if exists|k: int| 0 <= k < i + 1 && (#[trigger] l.object_types@[k])@ == t {
                    let k = choose|k: int| 0 <= k < i + 1 && (#[trigger] l.object_types@[k])@ == t;
                    if k < i {
                        assert(exists|k2: int| 0 <= k2 < i && (#[trigger] l.object_types@[k2])@ == t);
                    }
                }
            }
        }
        i += 1;
    }
    proof {
        assert forall|t: Seq<char>| #[trigger] seq_has(out@, t) <==> seq_has(l.object_types@, t) by {
            if seq_has(l.object_types@, t) {
                let k = choose|k: int| 0 <= k < l.object_types@.len() && (#[trigger] l.object_types@[k])@ == t;
            }
        }
    }
    out
}

/// The leaf of activity `a` with its interaction patterns.
fn leaf_of_activity(g: &GlobalData, a: &String) -> (r: OCPTLeaf)
    requires
        g.wf(),
    ensures
        activity_leaf(*g, a@, r),
{
    let related = types_for(&g.related, a);
    let divergent = types_for(&g.divergence, a);
    let convergent = types_for(&g.convergence, a);
    let deficient = types_for(&g.deficiency, a);
    let r = OCPTLeaf {
        uuid: new_uuid(),
        activity_label: OCPTLeafLabel::Activity(a.clone()),
        related_ob_types: related,
        divergent_ob_types: divergent,
        convergent_ob_types: convergent,
        deficient_ob_types: deficient,
    };
    proof {
        assert(lists(r.related_ob_types@, |t: Seq<char>| g.rel(a@, t)));
        assert(lists(r.divergent_ob_types@, |t: Seq<char>| g.div(a@, t)));
    }
    r
}

/// Whether `repeats` holds.
fn check_repeats(g: &GlobalData, a: &String, multi_event_types: &Vec<String>, related: &Vec<String>) -> (r: bool)
    requires
        g.wf(),
        lists(related@, |t: Seq<char>| g.rel(a@, t)),
    ensures
        r == repeats(*g, a@, multi_event_types@),
{
    let mut k: usize = 0;
    while k < related.len()
        invariant
            0 <= k <= related@.len(),
            g.wf(),
            lists(related@, |t: Seq<char>| g.rel(a@, t)),
            forall|q: int| 0 <= q < k ==> !(seq_has(multi_event_types@, (#[trigger] related@[q])@) && !g.div(a@, related@[q]@)),
        decreases related@.len() - k,
    {
        let t = &related[k];
        if crate::ocim::model::contains_string(multi_event_types, t)
            && !crate::ocim::common_data::set_contains(&g.divergence, a, t) {
            proof {
                assert(seq_has(related@, t@));
            }
            return true;
        }
        k += 1;
    }
    proof {
        assert forall|t: Seq<char>| #[trigger] g.rel(a@, t) implies !(seq_has(multi_event_types@, t) && !g.div(a@, t)) by {
            assert(seq_has(related@, t));
            let q = choose|q: int| 0 <= q < related@.len() && (#[trigger] related@[q])@ == t;
        }
    }
    false
}

/// The model of a sublog of one activity `a` (the first of the alphabet): where
/// some object type related to `a` and not divergent for it has an object in
/// more than one event (`multi_event_types` names the object types with such an
/// object), a loop of the leaf of `a` and a silent leaf; otherwise the leaf of `a`.
pub fn basecase(local_data: &LocalData, global_data: &GlobalData, multi_event_types: &Vec<String>) -> (r: OCPTNode)
    requires
        local_data.alphabet@.len() > 0,
        global_data.wf(),
    ensures
        match r {
            OCPTNode::Operator(op) => repeats(*global_data, local_data.alphabet@[0]@, multi_event_types@)
                && op.operator_type == OCPTOperatorType::Loop(None)
                && op.children@.len() == 2
                && (op.children@[0] matches OCPTNode::Leaf(leaf) && activity_leaf(*global_data, local_data.alphabet@[0]@, leaf))
                && (op.children@[1] matches OCPTNode::Leaf(leaf) && silent_leaf(*local_data, leaf)),
            OCPTNode::Leaf(leaf) => !repeats(*global_data, local_data.alphabet@[0]@, multi_event_types@)
                && activity_leaf(*global_data, local_data.alphabet@[0]@, leaf),
        },
{
    let activity = &local_data.alphabet[0];
    let leaf = leaf_of_activity(global_data, activity);
    if check_repeats(global_data, activity, multi_event_types, &leaf.related_ob_types) {
        let types = all_object_types(local_data);
        let tau = OCPTLeaf {
            uuid: new_uuid(),
            activity_label: OCPTLeafLabel::Tau,
            related_ob_types: types.clone(),
            divergent_ob_types: types.clone(),
            convergent_ob_types: types.clone(),
            deficient_ob_types: types,
        };
        let mut op = OCPTOperator::new(OCPTOperatorType::Loop(None));
        op.children.push(OCPTNode::Leaf(leaf));
        op.children.push(OCPTNode::Leaf(tau));
        OCPTNode::Operator(op)
    } else {
        OCPTNode::Leaf(leaf)
    }
}

} // verus!
