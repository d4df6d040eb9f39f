use scope_backend::identity_relations::check_relation::{
    build_event_object_sets, build_event_object_sets_for_types, check_relation, Relation,
};
use scope_backend::ocpt::IdentityRelationKind;

fn rel(eid: &str, act: &str, ts: &str, oid: &str, otype: &str) -> Relation {
    (eid.to_string(), act.to_string(), ts.to_string(), oid.to_string(), otype.to_string())
}

fn types(items: &[&str]) -> Vec<String> {
    items.iter().map(|s| s.to_string()).collect()
}

#[test]
fn event_object_sets_are_sorted_without_repetitions() {
    let relations = vec![
        rel("e1", "a", "1", "o2", "order"),
        rel("e1", "a", "1", "o1", "order"),
        rel("e1", "a", "1", "o2", "order"),
        rel("e2", "b", "2", "i1", "item"),
    ];
    let sets = build_event_object_sets(&relations);
    assert_eq!(sets, vec![
        ("e1".to_string(), types(&["o1", "o2"])),
        ("e2".to_string(), types(&["i1"])),
    ]);
    let typed = build_event_object_sets_for_types(&relations, &types(&["item"]));
    assert_eq!(typed, vec![("e2".to_string(), types(&["i1"]))]);
}

#[test]
fn objects_always_together_are_sync() {
    let relations = vec![
        rel("e1", "a", "1", "o1", "order"),
        rel("e1", "a", "1", "i1", "item"),
        rel("e2", "b", "2", "o1", "order"),
        rel("e2", "b", "2", "i1", "item"),
    ];
    assert_eq!(
        check_relation(&types(&["order"]), &types(&["item"]), &relations),
        Some(IdentityRelationKind::Sync)
    );
}

#[test]
fn no_relations_are_ordered() {
    let relations: Vec<Relation> = Vec::new();
    assert_eq!(
        check_relation(&types(&["order"]), &types(&["item"]), &relations),
        Some(IdentityRelationKind::ImpOrdered)
    );
}

#[test]
fn first_types_meeting_different_objects_give_none() {
    // order o1 meets i1 in e1 and i2 in e2
    let relations = vec![
        rel("e1", "a", "1", "o1", "order"),
        rel("e1", "a", "1", "i1", "item"),
        rel("e2", "b", "2", "o1", "order"),
        rel("e2", "b", "2", "i2", "item"),
    ];
    assert_eq!(check_relation(&types(&["order"]), &types(&["item"]), &relations), None);
}

#[test]
fn shared_first_objects_with_different_events_are_concurrent() {
    // e2 and e3 hold no order, but relate to different items
    let relations = vec![
        rel("e1", "a", "1", "o1", "order"),
        rel("e1", "a", "1", "i1", "item"),
        rel("e2", "b", "2", "i1", "item"),
        rel("e3", "c", "3", "i2", "item"),
    ];
    assert_eq!(
        check_relation(&types(&["order"]), &types(&["item"]), &relations),
        Some(IdentityRelationKind::ImpConcurrent)
    );
}

#[test]
fn distinct_first_object_sets_are_ordered() {
    // item i1 meets different objects, orders always meet the same ones, and
    // no two events with the same orders differ otherwise
    let relations = vec![
        rel("e1", "a", "1", "o1", "order"),
        rel("e1", "a", "1", "i1", "item"),
        rel("e2", "b", "2", "o2", "order"),
        rel("e2", "b", "2", "i1", "item"),
    ];
    assert_eq!(
        check_relation(&types(&["order"]), &types(&["item"]), &relations),
        Some(IdentityRelationKind::ImpOrdered)
    );
}

#[test]
fn relation_kind_ignores_times_activities_and_second_types() {
    let base = vec![
        rel("e1", "a", "1", "o1", "order"),
        rel("e1", "a", "1", "i1", "item"),
        rel("e2", "b", "2", "i1", "item"),
        rel("e3", "c", "3", "i2", "item"),
    ];
    let retimed = vec![
        rel("e1", "x", "9", "o1", "order"),
        rel("e1", "y", "0", "i1", "item"),
        rel("e2", "z", "5", "i1", "item"),
        rel("e3", "w", "1", "i2", "item"),
    ];
    let expected = Some(IdentityRelationKind::ImpConcurrent);
    assert_eq!(check_relation(&types(&["order"]), &types(&["item"]), &base), expected);
    assert_eq!(check_relation(&types(&["order"]), &types(&["item"]), &retimed), expected);
    assert_eq!(check_relation(&types(&["order"]), &types(&[]), &retimed), expected);
}
