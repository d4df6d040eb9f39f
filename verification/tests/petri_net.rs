use scope_backend::petri_net::{
    apply_simple_reduction, process_tree_to_petri_net, remove_non_terminal_places, ArcType, PetriNet,
};
use scope_backend::process_tree::{Leaf, LeafLabel, Node, Operator, OperatorType, ProcessTree};

fn act(a: &str) -> Node {
    Node::Leaf(Leaf { activity_label: LeafLabel::Activity(a.to_string()) })
}

fn op(operator_type: OperatorType, children: Vec<Node>) -> Node {
    Node::Operator(Operator { operator_type, children })
}

fn visible(net: &PetriNet) -> Vec<String> {
    net.transitions
        .iter()
        .filter(|t| t.present)
        .filter_map(|t| t.label.clone())
        .collect()
}

fn silent(net: &PetriNet) -> usize {
    net.transitions.iter().filter(|t| t.present && t.label.is_none()).count()
}

#[test]
fn sequence_becomes_a_chain_of_places_and_transitions() {
    let tree = ProcessTree { root: op(OperatorType::Sequence, vec![act("a"), act("b")]) };
    let net = process_tree_to_petri_net(&tree);
    assert_eq!(visible(&net), vec!["a".to_string(), "b".to_string()]);
    assert_eq!(silent(&net), 0);
    assert_eq!(net.place_count(), 3);
    assert_eq!(
        net.arcs,
        vec![
            ArcType::PlaceTransition(0, 0),
            ArcType::TransitionPlace(0, 2),
            ArcType::PlaceTransition(2, 1),
            ArcType::TransitionPlace(1, 1),
        ]
    );
    assert_eq!(net.initial_place, Some(0));
    assert_eq!(net.final_place, Some(1));
}

#[test]
fn choice_gets_silent_transitions_at_both_ends() {
    let tree = ProcessTree { root: op(OperatorType::ExclusiveChoice, vec![act("a"), act("b")]) };
    let net = process_tree_to_petri_net(&tree);
    assert_eq!(visible(&net), vec!["a".to_string(), "b".to_string()]);
    assert_eq!(silent(&net), 2);
    assert_eq!(net.place_count(), 4);
    assert_eq!(net.arcs.len(), 8);
}

#[test]
fn parallel_split_and_join_are_merged_into_the_boundary_transitions() {
    let tree = ProcessTree { root: op(OperatorType::Concurrency, vec![act("a"), act("b")]) };
    let net = process_tree_to_petri_net(&tree);
    assert_eq!(visible(&net), vec!["a".to_string(), "b".to_string()]);
    assert_eq!(silent(&net), 2);
    assert_eq!(net.place_count(), 6);
    assert_eq!(net.transition_count(), 4);
    assert_eq!(net.arcs.len(), 10);
    assert!(net.arcs.contains(&ArcType::TransitionPlace(0, 4)));
    assert!(net.arcs.contains(&ArcType::TransitionPlace(0, 6)));
    assert!(net.arcs.contains(&ArcType::TransitionPlace(3, 1)));
    assert!(net.arcs.contains(&ArcType::PlaceTransition(5, 3)));
    assert!(net.arcs.contains(&ArcType::PlaceTransition(7, 3)));
}

#[test]
fn tau_only_tree_gives_one_silent_transition() {
    let tree = ProcessTree { root: op(OperatorType::Sequence, vec![]) };
    let net = process_tree_to_petri_net(&tree);
    assert!(visible(&net).is_empty());
    assert_eq!(silent(&net), 1);
    assert_eq!(net.place_count(), 2);
}

#[test]
fn silent_chain_is_reduced() {
    // source -> t0 -> p2 -> t1 (silent) -> p3 -> t2 -> sink
    let mut net = PetriNet::new();
    let source = net.add_place();
    let sink = net.add_place();
    net.initial_place = Some(source);
    net.final_place = Some(sink);
    let p2 = net.add_place();
    let p3 = net.add_place();
    let t0 = net.add_transition(Some("a".to_string()));
    let t1 = net.add_transition(None);
    let t2 = net.add_transition(Some("b".to_string()));
    net.add_arc(ArcType::PlaceTransition(source, t0));
    net.add_arc(ArcType::TransitionPlace(t0, p2));
    net.add_arc(ArcType::PlaceTransition(p2, t1));
    net.add_arc(ArcType::TransitionPlace(t1, p3));
    net.add_arc(ArcType::PlaceTransition(p3, t2));
    net.add_arc(ArcType::TransitionPlace(t2, sink));
    apply_simple_reduction(&mut net);
    assert_eq!(net.transition_count(), 2);
    assert_eq!(net.place_count(), 3);
    assert!(!net.places[p2]);
    assert!(net.arcs.contains(&ArcType::TransitionPlace(t0, p3)));
    assert_eq!(net.arcs.len(), 4);
}

#[test]
fn dead_end_places_are_removed() {
    let mut net = PetriNet::new();
    let source = net.add_place();
    let sink = net.add_place();
    net.initial_place = Some(source);
    net.final_place = Some(sink);
    let dangling = net.add_place();
    let unreached = net.add_place();
    let t = net.add_transition(Some("a".to_string()));
    let u = net.add_transition(Some("b".to_string()));
    net.add_arc(ArcType::PlaceTransition(source, t));
    net.add_arc(ArcType::TransitionPlace(t, sink));
    net.add_arc(ArcType::TransitionPlace(t, dangling));
    net.add_arc(ArcType::PlaceTransition(unreached, u));
    remove_non_terminal_places(&mut net);
    assert_eq!(net.places, vec![true, true, false, false]);
    assert_eq!(
        net.arcs,
        vec![ArcType::PlaceTransition(source, t), ArcType::TransitionPlace(t, sink)]
    );
}

#[test]
fn reducing_a_reduced_net_changes_nothing() {
    let tree = ProcessTree { root: op(OperatorType::Concurrency, vec![act("a"), act("b")]) };
    let mut net = process_tree_to_petri_net(&tree);
    let places = net.places.clone();
    let arcs = net.arcs.clone();
    let transitions = net.transition_count();
    apply_simple_reduction(&mut net);
    assert_eq!(net.places, places);
    assert_eq!(net.arcs, arcs);
    assert_eq!(net.transition_count(), transitions);
}
