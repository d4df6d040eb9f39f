use scope_backend::ocim::common_data::{GlobalData, LocalData};
use scope_backend::ocim::model::ObjectTypeDfg;
use scope_backend::ocim::tau_cases::detect_tau_cases;
use scope_backend::ocpt::OCPTOperatorType;

fn strings(items: &[&str]) -> Vec<String> {
    items.iter().map(|s| s.to_string()).collect()
}

fn set_map(entries: &[(&str, &[&str])]) -> Vec<(String, Vec<String>)> {
    entries.iter().map(|(k, v)| (k.to_string(), strings(v))).collect()
}

fn pairs(items: &[(&str, &str)]) -> Vec<(String, String)> {
    items.iter().map(|(a, b)| (a.to_string(), b.to_string())).collect()
}

fn empty_global() -> GlobalData {
    GlobalData { divergence: Vec::new(), convergence: Vec::new(), related: Vec::new(), deficiency: Vec::new() }
}

fn missing_objects_data() -> LocalData {
    LocalData {
        alphabet: strings(&["A"]),
        object_types: Vec::new(),
        object_set: strings(&["o1"]),
        expected_objects: strings(&["o1", "o2"]),
        dfgs: Vec::new(),
        clos: Vec::new(),
    }
}

#[test]
fn missing_object_of_a_present_type_gives_a_silent_choice() {
    let mut l = missing_objects_data();
    let r = detect_tau_cases(&mut l, &empty_global(), &pairs(&[("o2", "t")]), &strings(&["t"]));
    let (parts, op) = r.expect("a silent choice");
    assert!(matches!(op, OCPTOperatorType::ExclusiveChoice));
    assert_eq!(parts, vec![strings(&["A"]), Vec::new()]);
    assert_eq!(l.expected_objects, strings(&["o1"]));
}

#[test]
fn missing_object_of_an_absent_type_is_forgotten() {
    let mut l = missing_objects_data();
    let r = detect_tau_cases(&mut l, &empty_global(), &pairs(&[("o2", "t")]), &strings(&["u"]));
    assert!(r.is_none());
    assert_eq!(l.expected_objects, strings(&["o1"]));
}

#[test]
fn freely_repeating_activities_give_a_silent_loop() {
    let dfg = ObjectTypeDfg {
        edges: vec![("A".to_string(), "B".to_string(), 1), ("B".to_string(), "A".to_string(), 1)],
        starts: vec![("A".to_string(), 1)],
        ends: vec![("B".to_string(), 1)],
    };
    let mut l = LocalData {
        alphabet: strings(&["A", "B"]),
        object_types: strings(&["o"]),
        object_set: Vec::new(),
        expected_objects: Vec::new(),
        dfgs: vec![("o".to_string(), dfg)],
        clos: vec![("o".to_string(), pairs(&[("A", "B"), ("B", "A"), ("A", "A"), ("B", "B")]))],
    };
    let g = GlobalData {
        divergence: Vec::new(),
        convergence: Vec::new(),
        related: set_map(&[("A", &["o"]), ("B", &["o"])]),
        deficiency: Vec::new(),
    };
    let (parts, op) = detect_tau_cases(&mut l, &g, &Vec::new(), &Vec::new()).expect("a silent loop");
    assert!(matches!(op, OCPTOperatorType::Loop(None)));
    assert_eq!(parts, vec![strings(&["A", "B"]), Vec::new()]);
}
