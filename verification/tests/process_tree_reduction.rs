use scope_backend::process_tree::{Leaf, LeafLabel, Node, Operator, OperatorType, ProcessTree};
use scope_backend::process_tree_reduction::{
    check_tau_mandatory_at_final_marking, check_tau_mandatory_at_initial_marking, copy_node,
    first_terminal_child_transition_count, is_tau_leaf_node, reduce_tau_children, same_operator_type,
    simplify_node, simplify_process_tree,
};

fn act(a: &str) -> Node {
    Node::Leaf(Leaf { activity_label: LeafLabel::Activity(a.to_string()) })
}

fn tau() -> Node {
    Node::Leaf(Leaf { activity_label: LeafLabel::Tau })
}

fn op(operator_type: OperatorType, children: Vec<Node>) -> Node {
    Node::Operator(Operator { operator_type, children })
}

fn show(node: &Node) -> String {
    match node {
        Node::Leaf(leaf) => match &leaf.activity_label {
            LeafLabel::Activity(a) => a.clone(),
            LeafLabel::Tau => "tau".to_string(),
        },
        Node::Operator(o) => {
            let name = match o.operator_type {
                OperatorType::Sequence => "seq",
                OperatorType::ExclusiveChoice => "xor",
                OperatorType::Concurrency => "and",
                OperatorType::Loop => "loop",
            };
            let parts: Vec<String> = o.children.iter().map(show).collect();
            format!("{}({})", name, parts.join(","))
        }
    }
}

#[test]
fn simplification_drops_taus_in_sequences_and_flattens() {
    let tree = op(
        OperatorType::Sequence,
        vec![act("a"), tau(), op(OperatorType::Sequence, vec![act("b"), act("c")])],
    );
    assert_eq!(show(&simplify_node(tree).unwrap()), "seq(a,b,c)");
}

#[test]
fn simplification_keeps_one_tau_in_a_choice() {
    let tree = op(OperatorType::ExclusiveChoice, vec![tau(), act("a"), tau()]);
    assert_eq!(show(&simplify_node(tree).unwrap()), "xor(tau,a)");
}

#[test]
fn simplification_of_tau_only_operators() {
    let seq = op(OperatorType::Sequence, vec![tau(), tau()]);
    assert_eq!(show(&simplify_node(seq).unwrap()), "tau");
    let looped = op(OperatorType::Loop, vec![tau(), tau()]);
    assert!(simplify_node(looped).is_none());
    let tree = ProcessTree { root: op(OperatorType::Loop, vec![tau(), tau()]) };
    assert_eq!(show(&simplify_process_tree(&tree).root), "tau");
}

#[test]
fn simplification_keeps_loops_with_a_silent_redo() {
    let tree = op(OperatorType::Loop, vec![act("a"), tau()]);
    assert_eq!(show(&simplify_node(tree).unwrap()), "loop(a,tau)");
    let nested = op(OperatorType::Loop, vec![op(OperatorType::Loop, vec![act("a"), act("b")]), act("c")]);
    assert_eq!(show(&simplify_node(nested).unwrap()), "loop(loop(a,b),c)");
}

#[test]
fn single_children_replace_their_operator() {
    let tree = op(OperatorType::Concurrency, vec![op(OperatorType::ExclusiveChoice, vec![act("x")])]);
    assert_eq!(show(&simplify_node(tree).unwrap()), "x");
}

#[test]
fn tau_reduction_of_children() {
    let mut children = vec![tau(), act("a"), tau(), act("b")];
    reduce_tau_children(&OperatorType::Concurrency, &mut children);
    assert_eq!(children.iter().map(show).collect::<Vec<_>>(), vec!["a", "b"]);
    let mut children = vec![tau(), tau(), tau()];
    reduce_tau_children(&OperatorType::ExclusiveChoice, &mut children);
    assert_eq!(children.iter().map(show).collect::<Vec<_>>(), vec!["tau"]);
    let mut children = vec![tau(), act("a")];
    reduce_tau_children(&OperatorType::Loop, &mut children);
    assert_eq!(children.iter().map(show).collect::<Vec<_>>(), vec!["tau", "a"]);
}

#[test]
fn silent_transitions_at_the_markings() {
    let choice = op(OperatorType::ExclusiveChoice, vec![act("a"), act("b")]);
    assert!(check_tau_mandatory_at_initial_marking(&choice));
    assert!(check_tau_mandatory_at_final_marking(&choice));
    let plain = op(OperatorType::Sequence, vec![act("a"), act("b")]);
    assert!(!check_tau_mandatory_at_initial_marking(&plain));
    assert!(!check_tau_mandatory_at_final_marking(&plain));
    let starts_with_loop = op(
        OperatorType::Sequence,
        vec![op(OperatorType::Loop, vec![act("a"), act("b")]), act("c")],
    );
    assert!(check_tau_mandatory_at_initial_marking(&starts_with_loop));
    assert!(!check_tau_mandatory_at_final_marking(&starts_with_loop));
    let ends_with_loop = op(
        OperatorType::Sequence,
        vec![act("c"), op(OperatorType::Loop, vec![act("a"), act("b")])],
    );
    assert!(!check_tau_mandatory_at_initial_marking(&ends_with_loop));
    assert!(check_tau_mandatory_at_final_marking(&ends_with_loop));
    assert_eq!(first_terminal_child_transition_count(&plain), 1);
    assert_eq!(first_terminal_child_transition_count(&op(OperatorType::Sequence, vec![])), 0);
}

#[test]
fn copies_and_small_predicates() {
    let tree = op(OperatorType::Sequence, vec![act("a"), op(OperatorType::Loop, vec![tau(), act("b")])]);
    assert_eq!(show(&copy_node(&tree)), show(&tree));
    assert!(is_tau_leaf_node(&tau()));
    assert!(!is_tau_leaf_node(&act("a")));
    assert!(same_operator_type(&OperatorType::Loop, &OperatorType::Loop));
    assert!(!same_operator_type(&OperatorType::Loop, &OperatorType::Sequence));
}
