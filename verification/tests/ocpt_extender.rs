use scope_backend::identity_relations::check_relation::Relation;
use scope_backend::identity_relations::ocpt_extender::{
    build_candidates, classify_merge_or_split, collect_activities, insert_subset_sync,
    set_to_sorted_vec, wrap_identity,
};
use scope_backend::ocpn_conversion::collect_convergent_activities;
use scope_backend::ocpt::{
    IdentityRelationKind, OCPTLeaf, OCPTLeafLabel, OCPTNode, OCPTOperator, OCPTOperatorType, OCPT,
};

fn strings(items: &[&str]) -> Vec<String> {
    items.iter().map(|s| s.to_string()).collect()
}

fn leaf(label: &str) -> OCPTNode {
    OCPTNode::Leaf(OCPTLeaf {
        uuid: 0,
        activity_label: OCPTLeafLabel::Activity(label.to_string()),
        related_ob_types: Vec::new(),
        divergent_ob_types: Vec::new(),
        convergent_ob_types: Vec::new(),
        deficient_ob_types: Vec::new(),
    })
}

fn operator(operator_type: OCPTOperatorType, children: Vec<OCPTNode>) -> OCPTNode {
    let mut op = OCPTOperator::new(operator_type);
    op.children = children;
    OCPTNode::Operator(op)
}

fn rel(eid: &str, act: &str, oid: &str, otype: &str) -> Relation {
    (eid.to_string(), act.to_string(), "t".to_string(), oid.to_string(), otype.to_string())
}

/// The tree as text: identity relations as `id(left|right)[..]`.
fn shape(node: &OCPTNode) -> String {
    match node {
        OCPTNode::Leaf(l) => match &l.activity_label {
            OCPTLeafLabel::Activity(a) => a.clone(),
            OCPTLeafLabel::Tau => "tau".to_string(),
        },
        OCPTNode::Operator(op) => {
            let name = match &op.operator_type {
                OCPTOperatorType::Sequence => "seq".to_string(),
                OCPTOperatorType::ExclusiveChoice => "xor".to_string(),
                OCPTOperatorType::Concurrency => "and".to_string(),
                OCPTOperatorType::Loop(_) => "loop".to_string(),
                OCPTOperatorType::IdentityRelation(r) => format!("id({}|{})", r.left.join(","), r.right.join(",")),
            };
            let inner: Vec<String> = op.children.iter().map(shape).collect();
            format!("{}[{}]", name, inner.join(","))
        }
    }
}

#[test]
fn collects_activities_in_order() {
    let tree = operator(OCPTOperatorType::Sequence, vec![leaf("b"), leaf("a"), leaf("b")]);
    let mut out = strings(&["c"]);
    collect_activities(&tree, &mut out);
    assert_eq!(out, strings(&["a", "b", "c"]));
}

#[test]
fn candidates_follow_first_appearance() {
    let relations = vec![rel("e1", "x", "i1", "item"), rel("e1", "x", "o1", "order"), rel("e2", "y", "i2", "item")];
    assert_eq!(build_candidates(&relations), vec![strings(&["item"]), strings(&["order"])]);
}

#[test]
fn sorted_vec_drops_repetitions() {
    assert_eq!(set_to_sorted_vec(&strings(&["b", "a", "b"])), strings(&["a", "b"]));
}

#[test]
fn wrap_identity_puts_relation_above_node() {
    let wrapped = wrap_identity(leaf("a"), &strings(&["o", "c"]), &strings(&["i"]), IdentityRelationKind::Sync);
    assert_eq!(shape(&wrapped), "id(c,o|i)[a]");
}

#[test]
fn subset_sync_wraps_maximal_subtrees_inside_the_subset() {
    let tree = operator(OCPTOperatorType::Sequence, vec![
        leaf("a"),
        operator(OCPTOperatorType::ExclusiveChoice, vec![leaf("b"), leaf("c")]),
        operator(OCPTOperatorType::Concurrency, vec![leaf("b"), leaf("d")]),
    ]);
    let out = insert_subset_sync(
        tree,
        &strings(&["o"]),
        &strings(&["i"]),
        &strings(&["b", "c"]),
        &IdentityRelationKind::SubsetSyncPartition,
        true,
    );
    assert_eq!(shape(&out), "id(o|i)[seq[a,id(o|i)[xor[b,c]],and[id(o|i)[b],d]]]");
}

#[test]
fn subset_sync_leaves_unrelated_subtrees_alone() {
    let tree = operator(OCPTOperatorType::Sequence, vec![leaf("a"), leaf("d")]);
    let out = insert_subset_sync(tree, &strings(&["o"]), &strings(&["i"]), &strings(&["b"]), &IdentityRelationKind::SubsetSyncOverlap, false);
    assert_eq!(shape(&out), "seq[a,d]");
}

#[test]
fn more_first_objects_vote_for_a_split() {
    let relations = vec![
        rel("e1", "pack", "i1", "item"),
        rel("e1", "pack", "i2", "item"),
        rel("e1", "pack", "p1", "package"),
        rel("e2", "pack", "i3", "item"),
        rel("e2", "pack", "p2", "package"),
        rel("e3", "other", "i4", "item"),
    ];
    assert_eq!(
        classify_merge_or_split(&relations, &"pack".to_string(), &strings(&["item"]), &strings(&["package"])),
        IdentityRelationKind::ObjectSplit
    );
    assert_eq!(
        classify_merge_or_split(&relations, &"pack".to_string(), &strings(&["package"]), &strings(&["item"])),
        IdentityRelationKind::ObjectMerge
    );
}

#[test]
fn ties_count_as_a_merge() {
    let relations = vec![rel("e1", "pack", "i1", "item"), rel("e1", "pack", "p1", "package")];
    assert_eq!(
        classify_merge_or_split(&relations, &"pack".to_string(), &strings(&["item"]), &strings(&["package"])),
        IdentityRelationKind::ObjectMerge
    );
}

#[test]
fn convergent_activities_are_collected_in_order() {
    let mut a = OCPTLeaf {
        uuid: 1,
        activity_label: OCPTLeafLabel::Activity("pay".to_string()),
        related_ob_types: strings(&["o", "i"]),
        divergent_ob_types: Vec::new(),
        convergent_ob_types: strings(&["i"]),
        deficient_ob_types: Vec::new(),
    };
    let mut b = a.clone();
    b.activity_label = OCPTLeafLabel::Activity("ask".to_string());
    a.uuid = 2;
    let mut c = a.clone();
    c.activity_label = OCPTLeafLabel::Activity("zip".to_string());
    c.convergent_ob_types = Vec::new();
    let tree = OCPT::new(operator(OCPTOperatorType::Sequence, vec![OCPTNode::Leaf(a), OCPTNode::Leaf(b), OCPTNode::Leaf(c)]));
    assert_eq!(collect_convergent_activities(&tree, &"i".to_string()), strings(&["ask", "pay"]));
    assert!(collect_convergent_activities(&tree, &"o".to_string()).is_empty());
}
