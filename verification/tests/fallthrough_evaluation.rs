use scope_backend::ocim::common_data::{GlobalData, LocalData};
use scope_backend::ocim::fallthrough_evaluation::{
    concurrent_fallthrough_counts, loop_fallthrough_counts, sequence_fallthrough_counts, sum_over_pairs,
    xor_fallthrough_counts, PairCheck,
};
use scope_backend::ocim::model::ObjectTypeDfg;

fn strings(items: &[&str]) -> Vec<String> {
    items.iter().map(|s| s.to_string()).collect()
}

fn set_map(entries: &[(&str, &[&str])]) -> Vec<(String, Vec<String>)> {
    entries.iter().map(|(k, v)| (k.to_string(), strings(v))).collect()
}

fn data(divergent: bool) -> (LocalData, GlobalData) {
    let dfg = ObjectTypeDfg {
        edges: vec![("A".to_string(), "B".to_string(), 1)],
        starts: Vec::new(),
        ends: Vec::new(),
    };
    let l = LocalData {
        alphabet: strings(&["A", "B"]),
        object_types: strings(&["o"]),
        object_set: Vec::new(),
        expected_objects: Vec::new(),
        dfgs: vec![("o".to_string(), dfg)],
        clos: vec![("o".to_string(), vec![("A".to_string(), "B".to_string())])],
    };
    let divergence: &[(&str, &[&str])] = if divergent { &[("A", &["o"]), ("B", &["o"])] } else { &[] };
    let g = GlobalData {
        divergence: set_map(divergence),
        convergence: Vec::new(),
        related: set_map(&[("A", &["o"]), ("B", &["o"])]),
        deficiency: Vec::new(),
    };
    (l, g)
}

#[test]
fn concurrent_counts_both_directions_per_shared_type() {
    let (l, g) = data(false);
    assert_eq!(concurrent_fallthrough_counts(&l, &g, &strings(&["A"]), &strings(&["B"])), (1, 2));
}

#[test]
fn xor_counts_only_divergent_types() {
    let (l, g) = data(false);
    assert_eq!(xor_fallthrough_counts(&l, &g, &strings(&["A"]), &strings(&["B"])), (0, 0));
    let (l, g) = data(true);
    assert_eq!(xor_fallthrough_counts(&l, &g, &strings(&["A"]), &strings(&["B"])), (1, 2));
}

#[test]
fn sequence_counts_reachability_for_non_divergent_types() {
    let (l, g) = data(false);
    assert_eq!(sequence_fallthrough_counts(&l, &g, &strings(&["A"]), &strings(&["B"])), (1, 1));
    assert_eq!(sequence_fallthrough_counts(&l, &g, &strings(&["B"]), &strings(&["A"])), (0, 1));
}

#[test]
fn loop_counts_reachability_over_all_ordered_pairs() {
    let (l, g) = data(false);
    assert_eq!(loop_fallthrough_counts(&l, &g, &strings(&["A"]), &strings(&["B"])), (1, 4));
}

#[test]
fn pair_sums_add_up_over_both_parts() {
    let (l, g) = data(false);
    let ctx = strings(&["A", "B"]);
    let both = strings(&["A", "B"]);
    assert_eq!(sum_over_pairs(&l, &g, PairCheck::SharedEdges, &ctx, &both, &both), (2, 8));
}

#[test]
fn checks_met_never_exceed_checks_made() {
    for divergent in [false, true] {
        let (l, g) = data(divergent);
        let one = strings(&["A"]);
        let two = strings(&["B"]);
        for (met, made) in [
            concurrent_fallthrough_counts(&l, &g, &one, &two),
            xor_fallthrough_counts(&l, &g, &one, &two),
            sequence_fallthrough_counts(&l, &g, &one, &two),
            loop_fallthrough_counts(&l, &g, &one, &two),
        ] {
            assert!(met <= made);
        }
    }
}

#[test]
fn well_formedness_rejects_repeated_keys() {
    let (l, g) = data(false);
    assert!(l.is_well_formed());
    assert!(g.is_well_formed());
    let mut l2 = l;
    l2.object_types.push("o".to_string());
    assert!(!l2.is_well_formed());
    let mut g2 = g;
    g2.related.push(("A".to_string(), Vec::new()));
    assert!(!g2.is_well_formed());
}
