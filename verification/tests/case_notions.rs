use scope_backend::case_notion::log_graphs::{ArcEntry, LogGraphTypeLevel};
use scope_backend::case_notion::traditional::{traditional_case_notion_for_ot, traditional_case_notion_type_level};

fn s(v: &[&str]) -> Vec<String> {
    v.iter().map(|x| x.to_string()).collect()
}

fn arc(a: &str, b: &str) -> ArcEntry {
    ArcEntry { source_type: a.to_string(), target_type: b.to_string() }
}

fn arcs(v: &[ArcEntry]) -> Vec<(String, String)> {
    v.iter().map(|a| (a.source_type.clone(), a.target_type.clone())).collect()
}

#[test]
fn traditional_notion_gives_one_case_per_object_of_the_type() {
    let objects = vec![
        ("o1".to_string(), ("order".to_string(), s(&["e1", "e2", "e1"]))),
        ("i1".to_string(), ("item".to_string(), s(&["e2"]))),
        ("o2".to_string(), ("order".to_string(), s(&["e3"]))),
    ];
    let cases = traditional_case_notion_for_ot(&objects, "order".to_string());
    assert_eq!(cases.len(), 2);
    assert_eq!(cases[0].0, s(&["e1", "e2", "e1"]));
    assert_eq!(cases[0].1, s(&["o1"]));
    let mut arches = cases[0].2.clone();
    arches.sort();
    assert_eq!(arches, vec![("e1".to_string(), "o1".to_string()), ("e2".to_string(), "o1".to_string())]);
    assert_eq!(cases[1].1, s(&["o2"]));
    assert_eq!(cases[1].2, vec![("e3".to_string(), "o2".to_string())]);
    assert!(traditional_case_notion_for_ot(&objects, "box".to_string()).is_empty());
}

#[test]
fn traditional_type_level_selects_the_start_type_and_its_event_types() {
    let graph = LogGraphTypeLevel {
        event_types: s(&["place", "pick"]),
        object_types: s(&["order"]),
        arcs: vec![arc("place", "order"), arc("order", "place")],
        deselected_event_types: s(&["ship"]),
        deselected_object_types: s(&["item"]),
        deselected_arcs: vec![arc("pick", "item"), arc("ship", "order")],
    };
    let r = traditional_case_notion_type_level(&graph, "order");
    assert_eq!(r.event_types, s(&["place", "ship"]));
    assert_eq!(r.deselected_event_types, s(&["pick"]));
    assert_eq!(r.object_types, s(&["order"]));
    assert_eq!(r.deselected_object_types, s(&["item"]));
    assert_eq!(
        arcs(&r.arcs),
        vec![("order".to_string(), "place".to_string()), ("order".to_string(), "ship".to_string())]
    );
    assert_eq!(
        arcs(&r.deselected_arcs),
        vec![("order".to_string(), "place".to_string()), ("pick".to_string(), "item".to_string())]
    );
}

#[test]
fn traditional_type_level_without_the_start_type_deselects_everything() {
    let graph = LogGraphTypeLevel {
        event_types: s(&["place"]),
        object_types: s(&["order"]),
        arcs: vec![arc("place", "order")],
        deselected_event_types: Vec::new(),
        deselected_object_types: Vec::new(),
        deselected_arcs: Vec::new(),
    };
    let r = traditional_case_notion_type_level(&graph, "box");
    assert!(r.event_types.is_empty() && r.object_types.is_empty() && r.arcs.is_empty());
    assert_eq!(r.deselected_event_types, s(&["place"]));
    assert_eq!(r.deselected_object_types, s(&["order"]));
    assert_eq!(arcs(&r.deselected_arcs), vec![("place".to_string(), "order".to_string())]);
}

use scope_backend::case_notion::advanced::advanced_case_notion_type_level;

fn shop_graph() -> LogGraphTypeLevel {
    LogGraphTypeLevel {
        event_types: s(&["place", "pick", "pack"]),
        object_types: s(&["order", "item", "box"]),
        arcs: vec![
            arc("place", "order"),
            arc("order", "place"),
            arc("place", "item"),
            arc("item", "place"),
            arc("pick", "item"),
            arc("item", "pick"),
        ],
        deselected_event_types: Vec::new(),
        deselected_object_types: Vec::new(),
        deselected_arcs: vec![arc("pack", "box"), arc("box", "pack")],
    }
}

#[test]
fn advanced_type_level_stops_at_diverging_object_types() {
    let divergence = vec![("place".to_string(), s(&["item"]))];
    let r = advanced_case_notion_type_level(&shop_graph(), "order", &divergence);
    assert_eq!(r.event_types, s(&["place"]));
    assert_eq!(r.deselected_event_types, s(&["pick", "pack"]));
    assert_eq!(r.object_types, s(&["order"]));
    assert_eq!(r.deselected_object_types, s(&["item", "box"]));
    assert_eq!(arcs(&r.arcs), vec![("place".to_string(), "order".to_string())]);
    assert_eq!(r.deselected_arcs.len(), 7);
}

#[test]
fn advanced_type_level_follows_non_diverging_paths() {
    let r = advanced_case_notion_type_level(&shop_graph(), "order", &Vec::new());
    assert_eq!(r.event_types, s(&["place", "pick"]));
    assert_eq!(r.object_types, s(&["order", "item"]));
    assert_eq!(r.deselected_object_types, s(&["box"]));
    assert_eq!(
        arcs(&r.arcs),
        vec![
            ("place".to_string(), "order".to_string()),
            ("place".to_string(), "item".to_string()),
            ("pick".to_string(), "item".to_string()),
        ]
    );
    let missing = advanced_case_notion_type_level(&shop_graph(), "pallet", &Vec::new());
    assert!(missing.object_types.is_empty());
    assert_eq!(missing.deselected_object_types, s(&["order", "item", "box"]));
}

use scope_backend::case_notion::advanced::advanced_case_notion_for_ot;

fn entry(id: &str, label: &str, list: &[&str]) -> (String, (String, Vec<String>)) {
    (id.to_string(), (label.to_string(), s(list)))
}

fn sorted(mut v: Vec<String>) -> Vec<String> {
    v.sort();
    v
}

fn shop_log() -> (Vec<(String, (String, Vec<String>))>, Vec<(String, (String, Vec<String>))>) {
    let events = vec![
        entry("e1", "create", &["o1", "i1"]),
        entry("e2", "pick", &["i1"]),
        entry("e3", "ship", &["o1", "b1"]),
    ];
    let objects = vec![
        entry("o1", "order", &["e1", "e3"]),
        entry("i1", "item", &["e1", "e2"]),
        entry("b1", "box", &["e3"]),
    ];
    (events, objects)
}

#[test]
fn advanced_notion_expands_through_non_diverging_objects() {
    let (events, objects) = shop_log();
    let divergence = vec![("ship".to_string(), s(&["box"]))];
    let cases = advanced_case_notion_for_ot(&events, &objects, "order".to_string(), &divergence);
    assert_eq!(cases.len(), 1);
    let (evs, objs, arches) = cases[0].clone();
    assert_eq!(sorted(evs), s(&["e1", "e2", "e3"]));
    assert_eq!(sorted(objs), s(&["b1", "i1", "o1"]));
    let mut arches = arches;
    arches.sort();
    let expected: Vec<(String, String)> = vec![("e1", "i1"), ("e1", "o1"), ("e2", "i1"), ("e3", "b1"), ("e3", "o1")]
        .into_iter()
        .map(|(a, b)| (a.to_string(), b.to_string()))
        .collect();
    assert_eq!(arches, expected);
}

#[test]
fn advanced_notion_does_not_expand_diverging_objects() {
    let (events, objects) = shop_log();
    let divergence = vec![("ship".to_string(), s(&["box"])), ("create".to_string(), s(&["item"]))];
    let cases = advanced_case_notion_for_ot(&events, &objects, "order".to_string(), &divergence);
    assert_eq!(cases.len(), 1);
    assert_eq!(sorted(cases[0].0.clone()), s(&["e1", "e3"]));
    assert_eq!(sorted(cases[0].1.clone()), s(&["b1", "i1", "o1"]));
    assert_eq!(cases[0].2.len(), 4);
    let items = advanced_case_notion_for_ot(&events, &objects, "item".to_string(), &Vec::new());
    assert_eq!(items.len(), 1);
    // the search from the item reaches the order but no second item
    assert_eq!(sorted(items[0].1.clone()), s(&["b1", "i1", "o1"]));
}

use scope_backend::case_notion::connected_component::connected_components_notion;

#[test]
fn connected_components_split_the_log_into_cases() {
    let events = vec![entry("e1", "create", &["o1"]), entry("e2", "pick", &["o1", "o2"]), entry("e3", "ship", &["o3"])];
    let objects = vec![
        entry("o1", "order", &["e1", "e2"]),
        entry("o2", "item", &["e2"]),
        entry("o3", "box", &["e3"]),
        entry("o4", "box", &[]),
    ];
    let cases = connected_components_notion(&events, &objects);
    assert_eq!(cases.len(), 3);
    assert_eq!(sorted(cases[0].0.clone()), s(&["e1", "e2"]));
    assert_eq!(sorted(cases[0].1.clone()), s(&["o1", "o2"]));
    assert_eq!(cases[0].2.len(), 3);
    assert_eq!(cases[1].0, s(&["e3"]));
    assert_eq!(cases[1].1, s(&["o3"]));
    assert_eq!(cases[1].2, vec![("e3".to_string(), "o3".to_string())]);
    assert!(cases[2].0.is_empty());
    assert_eq!(cases[2].1, s(&["o4"]));
    assert!(connected_components_notion(&Vec::new(), &Vec::new()).is_empty());
}
