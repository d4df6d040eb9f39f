use scope_backend::ocim::common_data::{GlobalData, LocalData};
use scope_backend::ocim::log_splitting::{split_log, OcEvent, OcLog, OcObject};
use scope_backend::ocpt::{IdentityRelation, IdentityRelationKind, OCPTOperatorType};

fn strings(items: &[&str]) -> Vec<String> {
    items.iter().map(|s| s.to_string()).collect()
}

fn ev(id: &str, act: &str, time: i64, objects: &[&str]) -> OcEvent {
    OcEvent { id: id.to_string(), activity: act.to_string(), time, object_ids: strings(objects) }
}

fn sample_log() -> OcLog {
    OcLog {
        event_types: strings(&["A", "B", "C"]),
        object_types: strings(&["o", "p"]),
        events: vec![ev("e1", "A", 1, &["o1", "p1"]), ev("e2", "B", 2, &["o1"]), ev("e3", "C", 3, &["p1"])],
        objects: vec![
            OcObject { id: "o1".to_string(), object_type: "o".to_string() },
            OcObject { id: "p1".to_string(), object_type: "p".to_string() },
        ],
    }
}

fn local() -> LocalData {
    LocalData {
        alphabet: strings(&["A", "B", "C"]),
        object_types: strings(&["o", "p"]),
        object_set: strings(&["o1", "p1"]),
        expected_objects: strings(&["o1", "p1", "x9"]),
        dfgs: Vec::new(),
        clos: Vec::new(),
    }
}

fn global() -> GlobalData {
    GlobalData { divergence: Vec::new(), convergence: Vec::new(), related: Vec::new(), deficiency: Vec::new() }
}

fn event_ids(l: &OcLog) -> Vec<String> {
    l.events.iter().map(|e| e.id.clone()).collect()
}

fn object_ids(l: &OcLog) -> Vec<String> {
    l.objects.iter().map(|o| o.id.clone()).collect()
}

#[test]
fn sequence_split_keeps_part_events_and_drops_empty_parts() {
    let partition = vec![strings(&["A"]), strings(&["B", "C"]), Vec::new()];
    let r = split_log(&vec![sample_log()], &partition, &OCPTOperatorType::Sequence, &local(), &global());
    assert_eq!(r.len(), 2);
    assert_eq!(event_ids(&r[0].0[0]), strings(&["e1"]));
    assert_eq!(r[0].0[0].event_types, strings(&["A"]));
    assert_eq!(object_ids(&r[0].0[0]), strings(&["o1", "p1"]));
    assert_eq!(event_ids(&r[1].0[0]), strings(&["e2", "e3"]));
    assert_eq!(r[1].0[0].event_types, strings(&["B", "C"]));
    assert_eq!(r[1].0[0].object_types, strings(&["o", "p"]));
    assert_eq!(r[1].1, strings(&["o1", "p1", "x9"]));
}

#[test]
fn choice_split_expects_referenced_objects() {
    let partition = vec![strings(&["C"]), strings(&["A", "B"])];
    let r = split_log(&vec![sample_log()], &partition, &OCPTOperatorType::ExclusiveChoice, &local(), &global());
    assert_eq!(r.len(), 2);
    assert_eq!(event_ids(&r[0].0[0]), strings(&["e3"]));
    assert_eq!(object_ids(&r[0].0[0]), strings(&["p1"]));
    assert_eq!(r[0].0[0].object_types, strings(&["p"]));
    assert_eq!(r[0].1, strings(&["p1"]));
    assert_eq!(r[1].1, strings(&["o1", "p1"]));
}

#[test]
fn identity_split_keeps_the_logs() {
    let relation = IdentityRelation { left: strings(&["o"]), right: strings(&["p"]), kind: IdentityRelationKind::Sync };
    let r = split_log(&vec![sample_log()], &Vec::new(), &OCPTOperatorType::IdentityRelation(relation), &local(), &global());
    assert_eq!(r.len(), 1);
    assert_eq!(event_ids(&r[0].0[0]), strings(&["e1", "e2", "e3"]));
}

#[test]
fn loop_split_separates_body_and_redo() {
    let partition = vec![strings(&["A"]), strings(&["B"])];
    let r = split_log(&vec![sample_log()], &partition, &OCPTOperatorType::Loop(None), &local(), &global());
    // e1 (body), e2 (redo) and e3 (in no part) are their own components; e3 goes nowhere
    assert_eq!(r.len(), 2);
    assert_eq!(event_ids(&r[0].0[0]), strings(&["e1"]));
    assert_eq!(event_ids(&r[1].0[0]), strings(&["e2"]));
}

#[test]
fn loop_split_joins_consecutive_events_of_one_side() {
    let partition = vec![strings(&["A", "B"]), strings(&["C"])];
    let r = split_log(&vec![sample_log()], &partition, &OCPTOperatorType::Loop(None), &local(), &global());
    assert_eq!(r.len(), 2);
    assert_eq!(event_ids(&r[0].0[0]), strings(&["e1", "e2"]));
    assert_eq!(r[0].0[0].event_types, strings(&["A", "B"]));
    assert_eq!(event_ids(&r[1].0[0]), strings(&["e3"]));
    assert_eq!(r[1].1, strings(&["o1", "p1", "x9"]));
}
