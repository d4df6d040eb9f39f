use scope_backend::ocim::basecase::basecase;
use scope_backend::ocim::common_data::{GlobalData, LocalData};
use scope_backend::ocpt::{OCPTLeafLabel, OCPTNode, OCPTOperatorType};

fn strings(items: &[&str]) -> Vec<String> {
    items.iter().map(|s| s.to_string()).collect()
}

fn set_map(entries: &[(&str, &[&str])]) -> Vec<(String, Vec<String>)> {
    entries.iter().map(|(k, v)| (k.to_string(), strings(v))).collect()
}

fn data() -> (LocalData, GlobalData) {
    let l = LocalData {
        alphabet: strings(&["A"]),
        object_types: strings(&["o", "p"]),
        object_set: Vec::new(),
        expected_objects: Vec::new(),
        dfgs: Vec::new(),
        clos: Vec::new(),
    };
    let g = GlobalData {
        divergence: set_map(&[("A", &["p"])]),
        convergence: set_map(&[("A", &["o"])]),
        related: set_map(&[("A", &["o", "p"])]),
        deficiency: Vec::new(),
    };
    (l, g)
}

#[test]
fn repeated_object_type_gives_a_loop_with_a_silent_leaf() {
    let (l, g) = data();
    match basecase(&l, &g, &strings(&["o"])) {
        OCPTNode::Operator(op) => {
            assert!(matches!(op.operator_type, OCPTOperatorType::Loop(None)));
            assert_eq!(op.children.len(), 2);
            match &op.children[0] {
                OCPTNode::Leaf(leaf) => {
                    assert!(matches!(&leaf.activity_label, OCPTLeafLabel::Activity(a) if a == "A"));
                    assert_eq!(leaf.related_ob_types, strings(&["o", "p"]));
                    assert_eq!(leaf.divergent_ob_types, strings(&["p"]));
                    assert_eq!(leaf.convergent_ob_types, strings(&["o"]));
                    assert!(leaf.deficient_ob_types.is_empty());
                }
                OCPTNode::Operator(_) => panic!("expected the activity leaf"),
            }
            match &op.children[1] {
                OCPTNode::Leaf(leaf) => {
                    assert!(matches!(leaf.activity_label, OCPTLeafLabel::Tau));
                    assert_eq!(leaf.related_ob_types, strings(&["o", "p"]));
                    assert_eq!(leaf.deficient_ob_types, strings(&["o", "p"]));
                }
                OCPTNode::Operator(_) => panic!("expected the silent leaf"),
            }
        }
        OCPTNode::Leaf(_) => panic!("expected a loop"),
    }
}

#[test]
fn divergent_repetition_gives_a_plain_leaf() {
    let (l, g) = data();
    match basecase(&l, &g, &strings(&["p"])) {
        OCPTNode::Leaf(leaf) => {
            assert!(matches!(&leaf.activity_label, OCPTLeafLabel::Activity(a) if a == "A"));
            assert_eq!(leaf.related_ob_types, strings(&["o", "p"]));
        }
        OCPTNode::Operator(_) => panic!("expected a leaf"),
    }
}
