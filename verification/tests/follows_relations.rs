use scope_backend::ocim::follows_relations::OCGraphRelations;
use scope_backend::ocim::model::ObjectTypeDfg;

fn graph(edges: &[(&str, &str, u32)]) -> ObjectTypeDfg {
    ObjectTypeDfg {
        edges: edges.iter().map(|(a, b, c)| (a.to_string(), b.to_string(), *c)).collect(),
        starts: Vec::new(),
        ends: Vec::new(),
    }
}

fn pairs(items: &[(&str, &str)]) -> Vec<(String, String)> {
    items.iter().map(|(a, b)| (a.to_string(), b.to_string())).collect()
}

#[test]
fn closure_is_reflexive_and_transitive_over_edge_ends() {
    let dfgs = vec![
        ("o".to_string(), graph(&[("A", "B", 2), ("B", "C", 1)])),
        ("p".to_string(), graph(&[("X", "X", 1)])),
        ("q".to_string(), graph(&[])),
    ];
    let closure = OCGraphRelations::build_closure_from_dfgs(&dfgs);
    assert_eq!(closure.len(), 3);
    assert_eq!(closure[0].0, "o");
    assert_eq!(
        closure[0].1,
        pairs(&[("A", "A"), ("A", "B"), ("A", "C"), ("B", "B"), ("B", "C"), ("C", "C")])
    );
    assert_eq!(closure[1].0, "p");
    assert_eq!(closure[1].1, pairs(&[("X", "X")]));
    assert_eq!(closure[2].0, "q");
    assert!(closure[2].1.is_empty());
}

#[test]
fn closure_follows_cycles_both_ways() {
    let dfgs = vec![("o".to_string(), graph(&[("A", "B", 1), ("B", "A", 1), ("C", "A", 1)]))];
    let closure = OCGraphRelations::build_closure_from_dfgs(&dfgs);
    let c = &closure[0].1;
    assert!(c.contains(&("B".to_string(), "A".to_string())));
    assert!(c.contains(&("C".to_string(), "B".to_string())));
    assert!(!c.contains(&("A".to_string(), "C".to_string())));
    assert_eq!(c.len(), 7);
}
