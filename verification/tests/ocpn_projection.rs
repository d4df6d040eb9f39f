use scope_backend::ocpn_conversion::{project_ocpt_for_object_type, ConvertOcptToOcpnError, LeafMetadataIndex};
use scope_backend::ocpt::{
    IdentityRelation, IdentityRelationKind, OCPTLeaf, OCPTLeafLabel, OCPTNode, OCPTOperator,
    OCPTOperatorType, OCPT,
};
use scope_backend::ocpn_merge::{convert_ocpt_to_ocpn, OcpnNodeRef};
use scope_backend::petri_net::process_tree_to_petri_net;
use scope_backend::process_tree::{LeafLabel, Node, OperatorType};

fn strings(items: &[&str]) -> Vec<String> {
    items.iter().map(|s| s.to_string()).collect()
}

fn leaf(uuid: u128, label: &str, related: &[&str], divergent: &[&str], convergent: &[&str]) -> OCPTNode {
    OCPTNode::Leaf(OCPTLeaf {
        uuid,
        activity_label: OCPTLeafLabel::Activity(label.to_string()),
        related_ob_types: strings(related),
        divergent_ob_types: strings(divergent),
        convergent_ob_types: strings(convergent),
        deficient_ob_types: Vec::new(),
    })
}

fn operator(operator_type: OCPTOperatorType, children: Vec<OCPTNode>) -> OCPTNode {
    let mut op = OCPTOperator::new(operator_type);
    op.children = children;
    OCPTNode::Operator(op)
}

fn sample_ocpt() -> OCPT {
    let place = leaf(1, "place", &["c", "o", "i"], &["c"], &["i"]);
    let pay = leaf(2, "pay", &["c", "o", "i"], &["c"], &["i"]);
    let pack = leaf(3, "pack", &["o", "i"], &[], &["i"]);
    let refund = leaf(4, "refund", &["c", "o", "i"], &["c"], &["i"]);
    let pickup = leaf(5, "pickup", &["c", "o", "i"], &["c"], &["i"]);
    let parallel = operator(OCPTOperatorType::Concurrency, vec![pay, pack]);
    let xor = operator(OCPTOperatorType::ExclusiveChoice, vec![refund, pickup]);
    OCPT::new(operator(OCPTOperatorType::Sequence, vec![place, parallel, xor]))
}

fn labels(node: &Node) -> Vec<Option<String>> {
    match node {
        Node::Leaf(l) => vec![match &l.activity_label {
            LeafLabel::Activity(a) => Some(a.clone()),
            LeafLabel::Tau => None,
        }],
        Node::Operator(op) => op.children.iter().flat_map(labels).collect(),
    }
}

#[test]
fn projects_fully_divergent_root_to_loop() {
    let ocpt = sample_ocpt();
    let metadata = LeafMetadataIndex::from_ocpt(&ocpt);
    let projected = project_ocpt_for_object_type(&ocpt.root, &"c".to_string(), &metadata).unwrap();
    match projected.root {
        Node::Operator(op) => {
            assert!(matches!(op.operator_type, OperatorType::Loop));
            assert_eq!(op.children.len(), 2);
        }
        Node::Leaf(_) => panic!("expected loop projection"),
    }
}

#[test]
fn projects_sequence_parallel_xor_for_non_divergent_type() {
    let ocpt = sample_ocpt();
    let metadata = LeafMetadataIndex::from_ocpt(&ocpt);
    let projected = project_ocpt_for_object_type(&ocpt.root, &"o".to_string(), &metadata).unwrap();
    match projected.root {
        Node::Operator(op) => {
            assert!(matches!(op.operator_type, OperatorType::Sequence));
            assert_eq!(op.children.len(), 3);
        }
        Node::Leaf(_) => panic!("expected sequence projection"),
    }
}

#[test]
fn divergence_loop_lists_related_activities_in_order() {
    let ocpt = sample_ocpt();
    let metadata = LeafMetadataIndex::from_ocpt(&ocpt);
    let projected = project_ocpt_for_object_type(&ocpt.root, &"c".to_string(), &metadata).unwrap();
    // loop(tau, xor(pay, pickup, place, refund))
    assert_eq!(
        labels(&projected.root),
        vec![None, Some("pay".to_string()), Some("pickup".to_string()), Some("place".to_string()), Some("refund".to_string())]
    );
}

#[test]
fn unrelated_leaves_become_tau() {
    let tree = operator(OCPTOperatorType::Sequence, vec![
        leaf(1, "a", &["o"], &[], &[]),
        leaf(2, "b", &["p"], &[], &[]),
    ]);
    let ocpt = OCPT::new(tree);
    let metadata = LeafMetadataIndex::from_ocpt(&ocpt);
    let projected = project_ocpt_for_object_type(&ocpt.root, &"o".to_string(), &metadata).unwrap();
    assert_eq!(labels(&projected.root), vec![Some("a".to_string()), None]);
}

#[test]
fn projection_rejects_identity_relations() {
    let child = leaf(10, "a", &["o"], &[], &[]);
    let relation = IdentityRelation { left: strings(&["o"]), right: strings(&["o"]), kind: IdentityRelationKind::Sync };
    let wrapped = OCPT::new(OCPTNode::Operator(OCPTOperator::new_identity(relation, child)));
    let metadata = LeafMetadataIndex::from_ocpt(&wrapped);
    let err = project_ocpt_for_object_type(&wrapped.root, &"o".to_string(), &metadata).err().unwrap();
    assert_eq!(err, ConvertOcptToOcpnError::UnsupportedIdentityRelations);
}

#[test]
fn projection_rejects_loops_without_two_children() {
    let tree = operator(OCPTOperatorType::Loop(None), vec![
        leaf(1, "a", &["o"], &[], &[]),
        leaf(2, "b", &["o"], &[], &[]),
        leaf(3, "c", &["o"], &[], &[]),
    ]);
    let ocpt = OCPT::new(tree);
    let metadata = LeafMetadataIndex::from_ocpt(&ocpt);
    let err = project_ocpt_for_object_type(&ocpt.root, &"o".to_string(), &metadata).err().unwrap();
    assert_eq!(err, ConvertOcptToOcpnError::MalformedLoop { child_count: 3 });
}

#[test]
fn converts_projected_sequence_tree_to_petri_net() {
    let ocpt = sample_ocpt();
    let metadata = LeafMetadataIndex::from_ocpt(&ocpt);
    let projected = project_ocpt_for_object_type(&ocpt.root, &"o".to_string(), &metadata).unwrap();
    let net = process_tree_to_petri_net(&projected);

    assert_eq!(net.place_count(), 7);
    assert_eq!(net.transition_count(), 6);
    assert_eq!(net.arcs.len(), 14);
    assert!(net.initial_place.is_some());
    assert!(net.final_place.is_some());
}

#[test]
fn converts_projected_divergence_loop_to_petri_net() {
    let ocpt = sample_ocpt();
    let metadata = LeafMetadataIndex::from_ocpt(&ocpt);
    let projected = project_ocpt_for_object_type(&ocpt.root, &"c".to_string(), &metadata).unwrap();
    let net = process_tree_to_petri_net(&projected);

    assert_eq!(net.place_count(), 5);
    assert_eq!(net.transition_count(), 8);
    assert_eq!(net.arcs.len(), 16);
}

#[test]
fn converts_sample_ocpt_to_one_object_centric_net() {
    let ocpt = sample_ocpt();
    let ocpn = convert_ocpt_to_ocpn(&ocpt).unwrap();
    let metadata = LeafMetadataIndex::from_ocpt(&ocpt);
    assert_eq!(metadata.all_object_types, strings(&["c", "i", "o"]));
    let mut places = 0;
    let mut arcs = 0;
    for ot in &metadata.all_object_types {
        let projected = project_ocpt_for_object_type(&ocpt.root, ot, &metadata).unwrap();
        let net = process_tree_to_petri_net(&projected);
        places += net.place_count();
        arcs += net.arcs.len();
    }
    assert_eq!(ocpn.places.len(), places);
    assert_eq!(ocpn.arcs.len(), arcs);
    // one visible transition per activity, shared by the object types
    let mut visible: Vec<String> = ocpn.transitions.iter().filter_map(|t| t.label.clone()).collect();
    visible.sort();
    assert_eq!(visible, strings(&["pack", "pay", "pickup", "place", "refund"]));
    assert!(ocpn.places.iter().all(|p| p.id.starts_with("p_") && p.id.len() == 34));
    assert!(ocpn.arcs.iter().all(|a| a.id.starts_with("a_") && a.id.len() == 34));
    assert_eq!(ocpn.places.iter().filter(|p| p.initial).count(), 3);
    assert_eq!(ocpn.places[0].name, "c1");
    // convergent activities of type "i" give variable arcs
    let t_place = ocpn.transitions.iter().find(|t| t.label.as_deref() == Some("place")).unwrap().id.clone();
    let i_places: Vec<String> = ocpn.places.iter().filter(|p| p.object_type == "i").map(|p| p.id.clone()).collect();
    assert!(ocpn.arcs.iter().any(|a| a.variable
        && matches!(&a.target, OcpnNodeRef::Transition(t) if *t == t_place)
        && matches!(&a.source, OcpnNodeRef::Place(p) if i_places.contains(p))));
}

#[test]
fn conversion_reports_the_first_failing_projection() {
    let child = leaf(10, "a", &["o"], &[], &[]);
    let relation = IdentityRelation { left: strings(&["o"]), right: strings(&["o"]), kind: IdentityRelationKind::Sync };
    let wrapped = OCPT::new(OCPTNode::Operator(OCPTOperator::new_identity(relation, child)));
    assert_eq!(convert_ocpt_to_ocpn(&wrapped).err().unwrap(), ConvertOcptToOcpnError::UnsupportedIdentityRelations);
}
