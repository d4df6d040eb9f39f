use scope_backend::ocgraphconf_case_compare::{
    case_ocel_to_case_graph, CaseEdge, CaseEdgeType, CaseGraphError, CaseLog, CaseLogEvent, CaseLogObject, CaseNodeKind,
};

fn event(id: &str, event_type: &str, time: i64, objects: &[&str]) -> CaseLogEvent {
    CaseLogEvent {
        id: id.to_string(),
        event_type: event_type.to_string(),
        time,
        object_ids: objects.iter().map(|o| o.to_string()).collect(),
    }
}

fn object(id: &str, object_type: &str) -> CaseLogObject {
    CaseLogObject { id: id.to_string(), object_type: object_type.to_string() }
}

/// One object "o1" of type "case"; events e1, e2, ... a quarter of an hour apart.
fn sample_case(activities: &[&str]) -> CaseLog {
    let events = activities
        .iter()
        .enumerate()
        .map(|(index, activity)| event(&format!("e{}", index + 1), activity, (index as i64) * 15 * 60, &["o1"]))
        .collect();
    CaseLog { events, objects: vec![object("o1", "case")] }
}

#[test]
fn case_ocel_conversion_builds_expected_graph_shape() {
    let case = sample_case(&["A", "B"]);
    let graph = case_ocel_to_case_graph(&case).unwrap();

    assert_eq!(graph.nodes.len(), 3);
    assert_eq!(graph.edges.len(), 3);
    assert_eq!(graph.ordered_event_ids.len(), 2);
}

#[test]
fn case_graph_numbers_objects_then_events_in_time_order() {
    let case = CaseLog {
        events: vec![
            event("e2", "B", 20, &["o2", "o1", "o2"]),
            event("e1", "A", 10, &["o1"]),
            event("e0", "C", 20, &[]),
        ],
        objects: vec![object("o2", "item"), object("o1", "order")],
    };
    let graph = case_ocel_to_case_graph(&case).unwrap();

    // objects by identifier: o1 -> 1, o2 -> 2; events by time, then identifier: e1, e0, e2
    assert_eq!(
        graph.nodes[&1].kind,
        CaseNodeKind::Object { object_type: "order".to_string(), source_object_id: "o1".to_string() }
    );
    assert_eq!(
        graph.nodes[&2].kind,
        CaseNodeKind::Object { object_type: "item".to_string(), source_object_id: "o2".to_string() }
    );
    assert_eq!(graph.ordered_event_ids, vec![3, 4, 5]);
    assert_eq!(graph.event_label(3), Some("A"));
    assert_eq!(graph.event_label(4), Some("C"));
    assert_eq!(graph.event_label(5), Some("B"));
    assert_eq!(graph.event_label(1), None);
    assert_eq!(graph.event_label(9), None);

    // directly-follows edges 1 and 2, then one edge per event and distinct object
    assert_eq!(graph.edges.len(), 5);
    assert_eq!(graph.edges[&1], CaseEdge { id: 1, from: 3, to: 4, edge_type: CaseEdgeType::DF });
    assert_eq!(graph.edges[&2], CaseEdge { id: 2, from: 4, to: 5, edge_type: CaseEdgeType::DF });
    assert_eq!(graph.edges[&3], CaseEdge { id: 3, from: 3, to: 1, edge_type: CaseEdgeType::E2O });
    assert_eq!(graph.edges[&4], CaseEdge { id: 4, from: 5, to: 1, edge_type: CaseEdgeType::E2O });
    assert_eq!(graph.edges[&5], CaseEdge { id: 5, from: 5, to: 2, edge_type: CaseEdgeType::E2O });
    assert_eq!(graph.df_edge_ids.get(&(3, 4)), Some(&1));
    assert_eq!(graph.df_edge_ids.get(&(4, 5)), Some(&2));
    assert_eq!(graph.df_edge_ids.len(), 2);
    assert_eq!(graph.e2o_edge_ids.get(&(5, 2)), Some(&5));
    assert_eq!(graph.e2o_edge_ids.len(), 3);

    let incident_o1: Vec<usize> = graph.incident_events_by_object[&1].iter().copied().collect();
    let incident_o2: Vec<usize> = graph.incident_events_by_object[&2].iter().copied().collect();
    assert_eq!(incident_o1, vec![3, 5]);
    assert_eq!(incident_o2, vec![5]);

    assert_eq!(
        graph.object_ids_by_type,
        vec![("item".to_string(), vec![2]), ("order".to_string(), vec![1])]
    );
}

#[test]
fn case_graph_refuses_empty_cases() {
    let no_events = CaseLog { events: vec![], objects: vec![object("o1", "case")] };
    assert_eq!(case_ocel_to_case_graph(&no_events).unwrap_err(), CaseGraphError::NoEvents);

    let no_objects = CaseLog { events: vec![event("e1", "A", 0, &[])], objects: vec![] };
    assert_eq!(case_ocel_to_case_graph(&no_objects).unwrap_err(), CaseGraphError::NoObjects);
}

#[test]
fn case_graph_names_the_first_unknown_object() {
    let case = CaseLog {
        events: vec![event("e2", "B", 5, &["x9"]), event("e1", "A", 1, &["zz", "o1", "ab"])],
        objects: vec![object("o1", "case")],
    };
    assert_eq!(case_ocel_to_case_graph(&case).unwrap_err(), CaseGraphError::UnknownObject("ab".to_string()));
}

#[test]
fn case_graph_conversion_is_deterministic() {
    let case = CaseLog {
        events: vec![event("b", "X", 3, &["o2", "o1"]), event("a", "Y", 3, &["o1"]), event("c", "Z", 1, &["o2"])],
        objects: vec![object("o2", "t"), object("o1", "t")],
    };
    let first = case_ocel_to_case_graph(&case).unwrap();
    let second = case_ocel_to_case_graph(&case).unwrap();
    assert_eq!(first.nodes, second.nodes);
    assert_eq!(first.edges, second.edges);
    assert_eq!(first.ordered_event_ids, second.ordered_event_ids);
    assert_eq!(first.df_edge_ids, second.df_edge_ids);
    assert_eq!(first.e2o_edge_ids, second.e2o_edge_ids);
    assert_eq!(first.incident_events_by_object, second.incident_events_by_object);
    // c (time 1), then a and b (time 3) by identifier
    assert_eq!(first.event_label(3), Some("Z"));
    assert_eq!(first.event_label(4), Some("Y"));
    assert_eq!(first.event_label(5), Some("X"));
    assert_eq!(first.object_ids_by_type, vec![("t".to_string(), vec![1, 2])]);
}
