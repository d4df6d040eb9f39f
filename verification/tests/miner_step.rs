use scope_backend::ocim::algorithm::{ocim_step, MinerStep};
use scope_backend::ocim::common_data::{GlobalData, LocalData};
use scope_backend::ocpt::OCPTOperatorType;

fn strings(items: &[&str]) -> Vec<String> {
    items.iter().map(|s| s.to_string()).collect()
}

fn one_activity() -> LocalData {
    LocalData {
        alphabet: strings(&["A"]),
        object_types: Vec::new(),
        object_set: strings(&["o1"]),
        expected_objects: strings(&["o1", "o2"]),
        dfgs: Vec::new(),
        clos: Vec::new(),
    }
}

fn empty_global() -> GlobalData {
    GlobalData { divergence: Vec::new(), convergence: Vec::new(), related: Vec::new(), deficiency: Vec::new() }
}

#[test]
fn tau_case_comes_before_the_base_case() {
    let mut l = one_activity();
    let step = ocim_step(&mut l, &empty_global(), &vec![("o2".to_string(), "t".to_string())], &strings(&["t"]));
    match step {
        MinerStep::Tau(parts, op) => {
            assert!(matches!(op, OCPTOperatorType::ExclusiveChoice));
            assert_eq!(parts, vec![strings(&["A"]), Vec::new()]);
        },
        _ => panic!("expected a tau case"),
    }
}

#[test]
fn single_activity_without_tau_case_is_the_base_case() {
    let mut l = one_activity();
    let step = ocim_step(&mut l, &empty_global(), &vec![("o2".to_string(), "t".to_string())], &strings(&["u"]));
    assert!(matches!(step, MinerStep::Base));
    assert_eq!(l.expected_objects, strings(&["o1"]));
}
