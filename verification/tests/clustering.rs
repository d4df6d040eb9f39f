use scope_backend::clustering::agglomerative::{
    condensed_distance_len, cut_linkage_assignments, LinkageMethod, LinkageRow,
};

/// The merge rows that average linkage gives for the matrix
/// `[[0, .1, .8, .9], [.1, 0, .7, .85], [.8, .7, 0, .2], [.9, .85, .2, 0]]`.
fn four_case_linkage() -> Vec<LinkageRow> {
    vec![
        LinkageRow { cluster_id: 4, left: 0, right: 1, size: 2 },
        LinkageRow { cluster_id: 5, left: 2, right: 3, size: 2 },
        LinkageRow { cluster_id: 6, left: 4, right: 5, size: 4 },
    ]
}

#[test]
fn linkage_method_parse_defaults_to_average_and_rejects_unknown_values() {
    assert_eq!(LinkageMethod::parse(None).unwrap(), LinkageMethod::Average);
    assert_eq!(LinkageMethod::parse(Some("complete")).unwrap(), LinkageMethod::Complete);
    assert!(LinkageMethod::parse(Some("ward")).is_err());
}

#[test]
fn linkage_method_parse_reports_allowed_values() {
    assert_eq!(
        LinkageMethod::parse(Some("ward")).unwrap_err(),
        "Invalid linkage 'ward'. Allowed values are 'average', 'complete', and 'single'."
    );
    assert_eq!(LinkageMethod::parse(Some("single")).unwrap(), LinkageMethod::Single);
}

#[test]
fn linkage_method_names_round_trip() {
    for m in [LinkageMethod::Average, LinkageMethod::Complete, LinkageMethod::Single] {
        assert_eq!(LinkageMethod::parse(Some(m.as_str())).unwrap(), m);
    }
    assert_eq!(LinkageMethod::Complete.as_str(), "complete");
}

#[test]
fn cuts_linkage_into_compact_cluster_assignments() {
    let linkage = four_case_linkage();
    let assignments = cut_linkage_assignments(4, &linkage, 2).unwrap();
    assert_eq!(assignments, vec![0, 0, 1, 1]);
}

#[test]
fn cut_to_one_cluster_and_to_singletons() {
    let linkage = four_case_linkage();
    assert_eq!(cut_linkage_assignments(4, &linkage, 1).unwrap(), vec![0, 0, 0, 0]);
    assert_eq!(cut_linkage_assignments(4, &linkage, 4).unwrap(), vec![0, 1, 2, 3]);
    // one merge: {0, 1} becomes cluster 4, ranked after clusters 2 and 3
    assert_eq!(cut_linkage_assignments(4, &linkage, 3).unwrap(), vec![2, 2, 0, 1]);
}

#[test]
fn cut_rejects_k_out_of_range() {
    let linkage = four_case_linkage();
    assert_eq!(
        cut_linkage_assignments(4, &linkage, 0).unwrap_err(),
        "k must be between 1 and the number of cases (4)."
    );
    assert_eq!(
        cut_linkage_assignments(4, &linkage, 5).unwrap_err(),
        "k must be between 1 and the number of cases (4)."
    );
}

#[test]
fn cut_rejects_too_few_rows() {
    let linkage = vec![LinkageRow { cluster_id: 12, left: 0, right: 1, size: 2 }];
    assert_eq!(
        cut_linkage_assignments(12, &linkage, 1).unwrap_err(),
        "Cannot cut hierarchy to k=1; linkage has only 1 merge rows."
    );
}

#[test]
fn cut_rejects_rows_with_missing_clusters() {
    let missing_left = vec![LinkageRow { cluster_id: 3, left: 7, right: 1, size: 2 }];
    assert_eq!(
        cut_linkage_assignments(3, &missing_left, 2).unwrap_err(),
        "Invalid linkage row for cluster 3: missing left cluster 7."
    );
    let same_twice = vec![LinkageRow { cluster_id: 3, left: 1, right: 1, size: 2 }];
    assert_eq!(
        cut_linkage_assignments(3, &same_twice, 2).unwrap_err(),
        "Invalid linkage row for cluster 3: missing right cluster 1."
    );
}

#[test]
fn condensed_length_counts_pairs() {
    assert_eq!(condensed_distance_len(0), 0);
    assert_eq!(condensed_distance_len(1), 0);
    assert_eq!(condensed_distance_len(4), 6);
    assert_eq!(condensed_distance_len(10), 45);
}
