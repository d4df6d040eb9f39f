use scope_backend::ocim::algorithm::find_strict_cut;
use scope_backend::ocim::common_data::{GlobalData, LocalData};
use scope_backend::ocim::concurrent_cut::is_concurrent_cut_valid;
use scope_backend::ocim::concurrent_cut_detection::find_cut_concurrent;
use scope_backend::ocim::exclusive_cut::is_exclusive_cut_valid;
use scope_backend::ocim::fallthrough_definition::{
    is_concurrent_fallthrough_valid, is_exclusive_fallthrough_valid, is_loop_fallthrough_valid,
    is_sequence_fallthrough_valid,
};
use scope_backend::ocim::exclusive_cut_detection::find_cut_exclusive;
use scope_backend::ocim::loop_cut::is_loop_cut_valid;
use scope_backend::ocim::model::ObjectTypeDfg;
use scope_backend::ocim::sequence_cut::is_sequence_cut_valid;
use scope_backend::ocim::sequence_cut_detection::{check_sequence_2, find_cut_sequence, partition_index};
use scope_backend::ocpt::OCPTOperatorType;

fn strings(items: &[&str]) -> Vec<String> {
    items.iter().map(|s| s.to_string()).collect()
}

fn dfg(edges: &[(&str, &str, u32)], starts: &[(&str, u32)], ends: &[(&str, u32)]) -> ObjectTypeDfg {
    ObjectTypeDfg {
        edges: edges.iter().map(|(a, b, c)| (a.to_string(), b.to_string(), *c)).collect(),
        starts: starts.iter().map(|(a, c)| (a.to_string(), *c)).collect(),
        ends: ends.iter().map(|(a, c)| (a.to_string(), *c)).collect(),
    }
}

fn local(
    alphabet: &[&str],
    object_types: &[&str],
    dfgs: Vec<(String, ObjectTypeDfg)>,
    clos: Vec<(String, Vec<(String, String)>)>,
) -> LocalData {
    LocalData {
        alphabet: strings(alphabet),
        object_types: strings(object_types),
        object_set: Vec::new(),
        expected_objects: Vec::new(),
        dfgs,
        clos,
    }
}

fn set_map(entries: &[(&str, &[&str])]) -> Vec<(String, Vec<String>)> {
    entries.iter().map(|(k, v)| (k.to_string(), strings(v))).collect()
}

fn global(related: &[(&str, &[&str])], divergence: &[(&str, &[&str])]) -> GlobalData {
    GlobalData {
        divergence: set_map(divergence),
        convergence: Vec::new(),
        related: set_map(related),
        deficiency: Vec::new(),
    }
}

fn two_parts() -> Vec<Vec<String>> {
    vec![strings(&["A"]), strings(&["B"])]
}

#[test]
fn valid_concurrent_cut_bidirectional_and_propagated() {
    let d = dfg(&[("A", "B", 1), ("B", "A", 1)], &[("A", 1), ("B", 1)], &[("A", 1), ("B", 1)]);
    let l = local(&["A", "B"], &["ot1"], vec![("ot1".to_string(), d)], Vec::new());
    let g = global(&[("A", &["ot1"]), ("B", &["ot1"])], &[]);
    assert!(is_concurrent_cut_valid(&l, &g, &two_parts()));
}

#[test]
fn invalid_when_missing_reverse_edge() {
    let d = dfg(&[("A", "B", 1)], &[], &[]);
    let l = local(&["A", "B"], &["ot1"], vec![("ot1".to_string(), d)], Vec::new());
    let g = global(&[("A", &["ot1"]), ("B", &["ot1"])], &[]);
    assert!(!is_concurrent_cut_valid(&l, &g, &two_parts()));
}

#[test]
fn invalid_when_projection_creates_new_start_not_in_original() {
    let d = dfg(&[("A", "B", 1), ("B", "A", 1)], &[("A", 1)], &[("A", 1), ("B", 1)]);
    let l = local(&["A", "B"], &["ot1"], vec![("ot1".to_string(), d)], Vec::new());
    let g = global(&[("A", &["ot1"]), ("B", &["ot1"])], &[]);
    assert!(!is_concurrent_cut_valid(&l, &g, &two_parts()));
}

#[test]
fn detects_parallel_cut_when_bidirectional_and_no_problems() {
    let d = dfg(&[("A", "B", 1), ("B", "A", 1)], &[("A", 1), ("B", 1)], &[("A", 1), ("B", 1)]);
    let l = local(&["A", "B"], &["ot1"], vec![("ot1".to_string(), d)], Vec::new());
    let g = global(&[("A", &["ot1"]), ("B", &["ot1"])], &[]);
    let (parts, op) = find_cut_concurrent(&l, &g).expect("should find cut");
    assert!(matches!(op, OCPTOperatorType::Concurrency));
    assert_eq!(parts.len(), 2);
    assert!(parts.iter().any(|p| p == &vec!["A".to_string()]));
    assert!(parts.iter().any(|p| p == &vec!["B".to_string()]));
}

#[test]
fn concurrent_detection_keeps_one_way_activities_together() {
    // only A -> B: the two must stay in one part, so there is no cut
    let d = dfg(&[("A", "B", 1)], &[("A", 1)], &[("B", 1)]);
    let l = local(&["A", "B"], &["ot1"], vec![("ot1".to_string(), d)], Vec::new());
    let g = global(&[("A", &["ot1"]), ("B", &["ot1"])], &[]);
    assert!(find_cut_concurrent(&l, &g).is_none());
}

#[test]
fn concurrent_detection_orders_parts_by_first_activity() {
    let d = dfg(
        &[("A", "B", 1), ("B", "A", 1), ("A", "C", 1), ("C", "A", 1), ("B", "C", 1), ("C", "B", 1)],
        &[("A", 1), ("B", 1), ("C", 1)],
        &[("A", 1), ("B", 1), ("C", 1)],
    );
    let l = local(&["A", "B", "C"], &["ot1"], vec![("ot1".to_string(), d)], Vec::new());
    let g = global(&[("A", &["ot1"]), ("B", &["ot1"]), ("C", &["ot1"])], &[]);
    let (parts, _) = find_cut_concurrent(&l, &g).expect("should find cut");
    assert_eq!(parts, vec![strings(&["A"]), strings(&["B"]), strings(&["C"])]);
}

#[test]
fn valid_exclusive_cut_with_non_divergent_type_and_no_edges() {
    let d = dfg(&[], &[("A", 1), ("B", 1)], &[("A", 1), ("B", 1)]);
    let l = local(&["A", "B"], &["ot1"], vec![("ot1".to_string(), d)], Vec::new());
    let g = global(&[("A", &["ot1"]), ("B", &["ot1"])], &[]);
    assert!(is_exclusive_cut_valid(&l, &g, &two_parts()));
}

#[test]
fn invalid_exclusive_cut_due_to_non_divergent_cross_edge() {
    let d = dfg(&[("A", "B", 1)], &[], &[]);
    let l = local(&["A", "B"], &["ot1"], vec![("ot1".to_string(), d)], Vec::new());
    let g = global(&[("A", &["ot1"]), ("B", &["ot1"])], &[]);
    assert!(!is_exclusive_cut_valid(&l, &g, &two_parts()));
}

#[test]
fn finds_exclusive_cut_when_edges_missing_for_non_divergent() {
    let d = dfg(&[], &[], &[]);
    let l = local(&["A", "B"], &["ot1"], vec![("ot1".to_string(), d)], Vec::new());
    let g = global(&[("A", &["ot1"]), ("B", &["ot1"])], &[]);
    let (parts, op) = find_cut_exclusive(&l, &g).expect("should find exclusive cut");
    assert!(matches!(op, OCPTOperatorType::ExclusiveChoice));
    assert_eq!(parts.len(), 2);
}

#[test]
fn exclusive_detection_joins_activities_that_follow_each_other() {
    let d = dfg(&[("A", "B", 1)], &[("A", 1)], &[("B", 1)]);
    let l = local(&["A", "B"], &["ot1"], vec![("ot1".to_string(), d)], Vec::new());
    let g = global(&[("A", &["ot1"]), ("B", &["ot1"])], &[]);
    assert!(find_cut_exclusive(&l, &g).is_none());
}

#[test]
fn valid_sequence_cut_with_non_divergent_type() {
    let clos = vec![("ot1".to_string(), vec![("A".to_string(), "B".to_string())])];
    let l = local(&["A", "B"], &["ot1"], Vec::new(), clos);
    let g = global(&[("A", &["ot1"]), ("B", &["ot1"])], &[]);
    assert!(is_sequence_cut_valid(&l, &g, &two_parts()));
}

#[test]
fn invalid_when_partition_not_covering_alphabet() {
    let l = local(&["A", "B"], &["ot1"], Vec::new(), Vec::new());
    let g = global(&[], &[]);
    let partitions = vec![strings(&["A"])];
    assert!(!is_sequence_cut_valid(&l, &g, &partitions));
}

#[test]
fn invalid_when_divergent_type_not_bidirectional() {
    let d = dfg(&[("A", "B", 1)], &[], &[]);
    let l = local(&["A", "B"], &["ot1"], vec![("ot1".to_string(), d)], Vec::new());
    let g = global(&[("A", &["ot1"]), ("B", &["ot1"])], &[("A", &["ot1"]), ("B", &["ot1"])]);
    assert!(!is_sequence_cut_valid(&l, &g, &two_parts()));
}

#[test]
fn invalid_when_non_divergent_lacks_forward_closure() {
    let clos = vec![("ot1".to_string(), vec![("B".to_string(), "A".to_string())])];
    let l = local(&["A", "B"], &["ot1"], Vec::new(), clos);
    let g = global(&[("A", &["ot1"]), ("B", &["ot1"])], &[]);
    assert!(!is_sequence_cut_valid(&l, &g, &two_parts()));
}

fn loop_data(clos_pairs: &[(&str, &str)]) -> (LocalData, GlobalData) {
    let d = dfg(&[("a", "b", 1)], &[("a", 1)], &[("a", 1)]);
    let clos = vec![(
        "ot".to_string(),
        clos_pairs.iter().map(|(a, b)| (a.to_string(), b.to_string())).collect(),
    )];
    let l = local(&["a", "b"], &["ot"], vec![("ot".to_string(), d)], clos);
    let g = global(&[("a", &["ot"]), ("b", &["ot"])], &[]);
    (l, g)
}

#[test]
fn loop_cut_valid_with_bi_directional_closure() {
    let (l, g) = loop_data(&[("a", "a"), ("a", "b"), ("b", "a"), ("b", "b")]);
    let partition = vec![strings(&["a"]), strings(&["b"])];
    assert!(is_loop_cut_valid(&l, &g, &partition));
}

#[test]
fn loop_cut_invalid_when_closure_missing_reverse_edge() {
    let (l, g) = loop_data(&[("a", "a"), ("a", "b"), ("b", "b")]);
    let partition = vec![strings(&["a"]), strings(&["b"])];
    assert!(!is_loop_cut_valid(&l, &g, &partition));
}

#[test]
fn loop_cut_needs_two_parts() {
    let (l, g) = loop_data(&[("a", "a"), ("a", "b"), ("b", "a"), ("b", "b")]);
    let partition = vec![strings(&["a", "b"])];
    assert!(!is_loop_cut_valid(&l, &g, &partition));
}

fn clos_of(ot: &str, pairs: &[(&str, &str)]) -> Vec<(String, Vec<(String, String)>)> {
    vec![(ot.to_string(), pairs.iter().map(|(a, b)| (a.to_string(), b.to_string())).collect())]
}

#[test]
fn sequence_detection_orders_a_chain() {
    let d = dfg(&[("A", "B", 1), ("B", "C", 1)], &[("A", 1)], &[("C", 1)]);
    let l = local(
        &["C", "A", "B"],
        &["ot1"],
        vec![("ot1".to_string(), d)],
        clos_of("ot1", &[("A", "B"), ("A", "C"), ("B", "C")]),
    );
    let g = global(&[("A", &["ot1"]), ("B", &["ot1"]), ("C", &["ot1"])], &[]);
    let cut = find_cut_sequence(&l, &g).expect("a chain is a sequence");
    assert_eq!(cut, vec![strings(&["A"]), strings(&["B"]), strings(&["C"])]);
    assert!(is_sequence_cut_valid(&l, &g, &cut));
}

#[test]
fn sequence_detection_keeps_a_loop_in_one_part() {
    let d = dfg(&[("A", "B", 1), ("B", "A", 1), ("B", "C", 1)], &[("A", 1)], &[("C", 1)]);
    let l = local(
        &["B", "C", "A"],
        &["ot1"],
        vec![("ot1".to_string(), d)],
        clos_of("ot1", &[("A", "B"), ("B", "A"), ("A", "C"), ("B", "C"), ("A", "A"), ("B", "B")]),
    );
    let g = global(&[("A", &["ot1"]), ("B", &["ot1"]), ("C", &["ot1"])], &[]);
    let cut = find_cut_sequence(&l, &g).expect("the loop precedes C");
    assert_eq!(cut, vec![strings(&["A", "B"]), strings(&["C"])]);
}

#[test]
fn sequence_detection_finds_nothing_in_a_single_loop() {
    let d = dfg(&[("A", "B", 1), ("B", "A", 1)], &[("A", 1)], &[("B", 1)]);
    let l = local(&["A", "B"], &["ot1"], vec![("ot1".to_string(), d)], clos_of("ot1", &[("A", "B"), ("B", "A")]));
    let g = global(&[("A", &["ot1"]), ("B", &["ot1"])], &[]);
    assert_eq!(find_cut_sequence(&l, &g), None);
}

#[test]
fn sequence_detection_rejects_unrelated_activities() {
    // no shared object type: nothing orders A and B, and the parts share no type
    let l = local(&["A", "B"], &["o1", "o2"], Vec::new(), Vec::new());
    let g = global(&[("A", &["o1"]), ("B", &["o2"])], &[]);
    assert_eq!(find_cut_sequence(&l, &g), None);
}

#[test]
fn partition_index_finds_first_part() {
    let p = vec![strings(&["a", "b"]), strings(&["c"]), strings(&["b"])];
    assert_eq!(partition_index(&p, &"b".to_string()), Some(0));
    assert_eq!(partition_index(&p, &"c".to_string()), Some(1));
    assert_eq!(partition_index(&p, &"z".to_string()), None);
}

#[test]
fn sequence_condition_two_needs_balanced_reachability() {
    let clos = vec![vec![false, true, true], vec![true, false, false], vec![false, false, false]];
    assert!(check_sequence_2(&clos, 0, 1));
    assert!(!check_sequence_2(&clos, 0, 2));
    assert!(check_sequence_2(&clos, 1, 2));
}

#[test]
fn exclusive_fallthrough_needs_no_edges_and_a_shared_type() {
    let g = global(&[("A", &["ot1"]), ("B", &["ot1"])], &[]);
    let quiet = local(&["A", "B"], &["ot1"], vec![("ot1".to_string(), dfg(&[], &[("A", 1), ("B", 1)], &[]))], Vec::new());
    assert!(is_exclusive_fallthrough_valid(&quiet, &g, &two_parts()));
    let linked = local(&["A", "B"], &["ot1"], vec![("ot1".to_string(), dfg(&[("B", "A", 2)], &[], &[]))], Vec::new());
    assert!(!is_exclusive_fallthrough_valid(&linked, &g, &two_parts()));
    let unrelated = global(&[("A", &["o1"]), ("B", &["o2"])], &[]);
    assert!(!is_exclusive_fallthrough_valid(&quiet, &unrelated, &two_parts()));
    assert!(!is_exclusive_fallthrough_valid(&quiet, &g, &[strings(&["A"])]));
}

#[test]
fn sequence_fallthrough_forbids_reaching_back() {
    let g = global(&[("A", &["ot1"]), ("B", &["ot1"])], &[]);
    let forward = local(&["A", "B"], &["ot1"], Vec::new(), clos_of("ot1", &[("A", "B")]));
    assert!(is_sequence_fallthrough_valid(&forward, &g, &two_parts()));
    let back = local(&["A", "B"], &["ot1"], Vec::new(), clos_of("ot1", &[("A", "B"), ("B", "A")]));
    assert!(!is_sequence_fallthrough_valid(&back, &g, &two_parts()));
}

#[test]
fn loop_fallthrough_checks_boundaries_and_crossings() {
    let g = global(&[("A", &["ot1"]), ("B", &["ot1"])], &[]);
    let good = local(
        &["A", "B"],
        &["ot1"],
        vec![("ot1".to_string(), dfg(&[("A", "B", 1), ("B", "A", 1)], &[("A", 1)], &[("A", 1)]))],
        Vec::new(),
    );
    assert!(is_loop_fallthrough_valid(&good, &g, &two_parts()));
    // the redo activity starts the graph
    let redo_starts = local(
        &["A", "B"],
        &["ot1"],
        vec![("ot1".to_string(), dfg(&[("A", "B", 1), ("B", "A", 1)], &[("A", 1), ("B", 1)], &[("A", 1)]))],
        Vec::new(),
    );
    assert!(!is_loop_fallthrough_valid(&redo_starts, &g, &two_parts()));
    // the edge into the redo part does not leave from an end activity
    let early_exit = local(
        &["A", "B"],
        &["ot1"],
        vec![("ot1".to_string(), dfg(&[("A", "B", 1), ("B", "A", 1)], &[("A", 1)], &[]))],
        Vec::new(),
    );
    assert!(!is_loop_fallthrough_valid(&early_exit, &g, &two_parts()));
    assert!(!is_loop_fallthrough_valid(&good, &g, &[strings(&["A", "B"])]));
    let unrelated = global(&[("A", &["o1"]), ("B", &["o2"])], &[]);
    assert!(!is_loop_fallthrough_valid(&good, &unrelated, &two_parts()));
}

#[test]
fn concurrent_fallthrough_accepts_any_partition() {
    let g = global(&[], &[]);
    let l = local(&["A"], &[], Vec::new(), Vec::new());
    assert!(is_concurrent_fallthrough_valid(&l, &g, &two_parts()));
}

#[test]
fn strict_cut_prefers_the_sequence_cut() {
    let d = dfg(&[("A", "B", 1), ("B", "C", 1)], &[("A", 1)], &[("C", 1)]);
    let l = local(
        &["C", "A", "B"],
        &["ot1"],
        vec![("ot1".to_string(), d)],
        clos_of("ot1", &[("A", "B"), ("A", "C"), ("B", "C")]),
    );
    let g = global(&[("A", &["ot1"]), ("B", &["ot1"]), ("C", &["ot1"])], &[]);
    let (parts, op) = find_strict_cut(&l, &g).expect("a chain is a sequence");
    assert!(matches!(op, OCPTOperatorType::Sequence));
    assert_eq!(parts, vec![strings(&["A"]), strings(&["B"]), strings(&["C"])]);
}

#[test]
fn strict_cut_falls_back_to_the_exclusive_cut() {
    let d = dfg(&[], &[], &[]);
    let l = local(&["A", "B"], &["ot1"], vec![("ot1".to_string(), d)], Vec::new());
    let g = global(&[("A", &["ot1"]), ("B", &["ot1"])], &[]);
    let (parts, op) = find_strict_cut(&l, &g).expect("the activities never meet");
    assert!(matches!(op, OCPTOperatorType::ExclusiveChoice));
    assert_eq!(parts.len(), 2);
}
