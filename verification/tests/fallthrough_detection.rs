use scope_backend::ocim::common_data::{GlobalData, LocalData};
use scope_backend::ocim::fallthrough_detection::{
    concurrent_fallthrough_split, connected_components_by_predicate, detect_loop_pair,
    exclusive_fallthrough_partition, exclusive_fallthrough_split, loop_fallthrough_candidates,
    loop_fallthrough_partition, sequence_fallthrough_candidates,
};
use scope_backend::ocim::model::ObjectTypeDfg;

fn strings(items: &[&str]) -> Vec<String> {
    items.iter().map(|s| s.to_string()).collect()
}

fn dfg(edges: &[(&str, &str, u32)], starts: &[(&str, u32)], ends: &[(&str, u32)]) -> ObjectTypeDfg {
    ObjectTypeDfg {
        edges: edges.iter().map(|(a, b, c)| (a.to_string(), b.to_string(), *c)).collect(),
        starts: starts.iter().map(|(a, c)| (a.to_string(), *c)).collect(),
        ends: ends.iter().map(|(a, c)| (a.to_string(), *c)).collect(),
    }
}

fn local(
    alphabet: &[&str],
    object_types: &[&str],
    dfgs: Vec<(String, ObjectTypeDfg)>,
    clos: Vec<(String, Vec<(String, String)>)>,
) -> LocalData {
    LocalData {
        alphabet: strings(alphabet),
        object_types: strings(object_types),
        object_set: Vec::new(),
        expected_objects: Vec::new(),
        dfgs,
        clos,
    }
}

fn set_map(entries: &[(&str, &[&str])]) -> Vec<(String, Vec<String>)> {
    entries.iter().map(|(k, v)| (k.to_string(), strings(v))).collect()
}

fn global(related: &[(&str, &[&str])], divergence: &[(&str, &[&str])]) -> GlobalData {
    GlobalData {
        divergence: set_map(divergence),
        convergence: Vec::new(),
        related: set_map(related),
        deficiency: Vec::new(),
    }
}

fn parts(items: &[&[&str]]) -> Vec<Vec<String>> {
    items.iter().map(|p| strings(p)).collect()
}

#[test]
fn components_use_only_pairs_in_increasing_order() {
    let alphabet = strings(&["A", "B", "C", "D"]);
    let mut adj = vec![vec![false; 4]; 4];
    adj[0][2] = true;
    adj[2][3] = true;
    adj[1][0] = true; // below the diagonal: not a pair i < j
    let groups = connected_components_by_predicate(&alphabet, &adj);
    assert_eq!(groups, parts(&[&["A", "C", "D"], &["B"]]));
}

#[test]
fn loop_pair_of_two_boundary_activities() {
    let d = dfg(&[], &[("A", 1)], &[("B", 1)]);
    let l = local(&["A", "B"], &["o"], vec![("o".to_string(), d)], Vec::new());
    let g = global(&[], &[("A", &["o"]), ("B", &["o"])]);
    assert!(detect_loop_pair(&l, &g, &"A".to_string(), &"B".to_string()));
    let g_without = global(&[], &[("A", &["o"])]);
    assert!(!detect_loop_pair(&l, &g_without, &"A".to_string(), &"B".to_string()));
}

#[test]
fn loop_pair_by_an_inner_edge_needs_a_non_divergent_pair() {
    let d = dfg(&[("A", "B", 1)], &[], &[]);
    let l = local(&["A", "B"], &["o"], vec![("o".to_string(), d)], Vec::new());
    // without related entries, `o` is not divergent for the pair
    let g = global(&[], &[("A", &["o"]), ("B", &["o"])]);
    assert!(detect_loop_pair(&l, &g, &"A".to_string(), &"B".to_string()));
    // related and divergent for every activity: divergent for the pair
    let g_div = global(&[("A", &["o"]), ("B", &["o"])], &[("A", &["o"]), ("B", &["o"])]);
    assert!(!detect_loop_pair(&l, &g_div, &"A".to_string(), &"B".to_string()));
}

#[test]
fn loop_partition_groups_paired_activities() {
    let d = dfg(&[], &[("A", 1)], &[("B", 1)]);
    let l = local(&["A", "B", "C"], &["o"], vec![("o".to_string(), d)], Vec::new());
    let g = global(&[], &[("A", &["o"]), ("B", &["o"])]);
    assert_eq!(loop_fallthrough_partition(&l, &g), parts(&[&["A", "B"], &["C"]]));
}

#[test]
fn loop_candidate_with_body_and_redo() {
    let d = dfg(&[("A", "B", 1), ("B", "A", 1)], &[("A", 1)], &[("A", 1)]);
    let l = local(&["A", "B"], &["o"], vec![("o".to_string(), d)], Vec::new());
    let g = global(&[("A", &["o"]), ("B", &["o"])], &[]);
    let candidates = loop_fallthrough_candidates(&l, &g, &parts(&[&["A"], &["B"]]));
    assert_eq!(candidates, vec![(0, parts(&[&["A"], &["B"]]))]);
}

#[test]
fn loop_candidate_rejected_when_body_edge_leaves_from_a_non_end() {
    let d = dfg(&[("A", "B", 1), ("B", "A", 1)], &[("A", 1)], &[]);
    let l = local(&["A", "B"], &["o"], vec![("o".to_string(), d)], Vec::new());
    let g = global(&[("A", &["o"]), ("B", &["o"])], &[]);
    let candidates = loop_fallthrough_candidates(&l, &g, &parts(&[&["A"], &["B"]]));
    assert!(candidates.is_empty());
}

#[test]
fn concurrent_split_by_labels() {
    let l = local(&["A", "B", "C"], &["o"], Vec::new(), Vec::new());
    let g = global(&[], &[]);
    assert_eq!(concurrent_fallthrough_split(&l, &g, &vec![0, 0, 0]), Some(parts(&[&["A"], &["B", "C"]])));
    assert_eq!(concurrent_fallthrough_split(&l, &g, &vec![1, 0, 1]), Some(parts(&[&["B"], &["A", "C"]])));
    let empty = local(&[], &["o"], Vec::new(), Vec::new());
    assert_eq!(concurrent_fallthrough_split(&empty, &g, &Vec::new()), None);
}

#[test]
fn exclusive_partition_and_split() {
    let d = dfg(&[("A", "B", 1)], &[], &[]);
    let l = local(&["A", "B", "C"], &["o"], vec![("o".to_string(), d)], Vec::new());
    let g = global(&[("A", &["o"]), ("B", &["o"]), ("C", &["o"])], &[]);
    let partition = exclusive_fallthrough_partition(&l, &g);
    assert_eq!(partition, parts(&[&["A", "B"], &["C"]]));
    assert_eq!(exclusive_fallthrough_split(&l, &g, &partition, &vec![0, 1]), Some(parts(&[&["A", "B"], &["C"]])));
    assert_eq!(exclusive_fallthrough_split(&l, &g, &partition, &vec![1, 0]), Some(parts(&[&["C"], &["A", "B"]])));
    assert_eq!(exclusive_fallthrough_split(&l, &g, &partition, &vec![0, 0]), None);
}

#[test]
fn exclusive_split_rejects_parts_with_an_edge_between() {
    let d = dfg(&[("A", "B", 1)], &[], &[]);
    let l = local(&["A", "B"], &["o"], vec![("o".to_string(), d)], Vec::new());
    let g = global(&[("A", &["o"]), ("B", &["o"])], &[]);
    assert_eq!(exclusive_fallthrough_split(&l, &g, &parts(&[&["A"], &["B"]]), &vec![0, 1]), None);
}

#[test]
fn sequence_candidate_for_a_one_way_pair() {
    let clos = vec![("o".to_string(), vec![("A".to_string(), "B".to_string())])];
    let l = local(&["A", "B"], &["o"], Vec::new(), clos);
    let g = global(&[("A", &["o"]), ("B", &["o"])], &[]);
    assert_eq!(sequence_fallthrough_candidates(&l, &g), vec![(1, parts(&[&["A"], &["B"]]))]);
}

#[test]
fn sequence_candidates_need_two_groups() {
    let clos = vec![("o".to_string(), vec![
        ("A".to_string(), "B".to_string()),
        ("B".to_string(), "A".to_string()),
    ])];
    let l = local(&["A", "B"], &["o"], Vec::new(), clos);
    let g = global(&[("A", &["o"]), ("B", &["o"])], &[]);
    assert!(sequence_fallthrough_candidates(&l, &g).is_empty());
    let single = local(&["A"], &["o"], Vec::new(), Vec::new());
    assert!(sequence_fallthrough_candidates(&single, &g).is_empty());
}
