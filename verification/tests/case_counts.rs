use scope_backend::clustering::case_counts::{
    build_object_type_map, compute_event_counts_per_cluster, extract_df_and_e2o_counts_object_instance, extract_df_and_e2o_counts_type_only,
    extract_event_type_ids, get_all_views_from_case,
    get_all_views_global, CaseEventRecord, CaseObjectRecord, CaseRecord,
};

fn ev(event_type: Option<&str>) -> CaseEventRecord {
    CaseEventRecord { time: None, event_type: event_type.map(|t| t.to_string()), object_ids: vec![] }
}

fn case(names: &[Option<&str>], events: Vec<CaseEventRecord>) -> CaseRecord {
    CaseRecord {
        object_type_names: names.iter().map(|n| n.map(|s| s.to_string())).collect(),
        events,
        objects: vec![],
    }
}

#[test]
fn views_of_a_case_skip_unnamed_types() {
    let c = case(&[Some("order"), None, Some("item"), Some("order")], vec![]);
    assert_eq!(get_all_views_from_case(&c), vec!["order".to_string(), "item".to_string(), "order".to_string()]);
}

#[test]
fn global_views_are_sorted_and_unique() {
    let cases = vec![case(&[Some("order"), Some("item")], vec![]), case(&[Some("box"), None, Some("item")], vec![])];
    assert_eq!(get_all_views_global(&cases), vec!["box".to_string(), "item".to_string(), "order".to_string()]);
    assert!(get_all_views_global(&vec![]).is_empty());
}

#[test]
fn event_type_ids_follow_first_occurrence() {
    let cases = vec![
        case(&[], vec![ev(Some("pay")), ev(None), ev(Some("create"))]),
        case(&[], vec![ev(Some("create")), ev(Some("ship"))]),
    ];
    assert_eq!(
        extract_event_type_ids(&cases),
        vec![("pay".to_string(), 0), ("create".to_string(), 1), ("ship".to_string(), 2)]
    );
}

#[test]
fn object_type_map_keeps_the_last_complete_object() {
    let c = CaseRecord {
        object_type_names: vec![],
        events: vec![],
        objects: vec![
            CaseObjectRecord { id: Some("o1".to_string()), object_type: Some("order".to_string()) },
            CaseObjectRecord { id: Some("o2".to_string()), object_type: None },
            CaseObjectRecord { id: Some("o1".to_string()), object_type: Some("item".to_string()) },
            CaseObjectRecord { id: None, object_type: Some("box".to_string()) },
        ],
    };
    assert_eq!(build_object_type_map(&c), vec![("o1".to_string(), "item".to_string())]);
}

#[test]
fn event_counts_per_cluster_are_sorted_by_count_then_name() {
    let cases = vec![
        case(&[], vec![ev(Some("b")), ev(Some("a")), ev(Some("b"))]),
        case(&[], vec![ev(Some("a")), ev(None)]),
        case(&[], vec![ev(Some("c"))]),
        case(&[], vec![ev(Some("z"))]),
    ];
    // the third case is in no cluster (3 >= k), the fourth has no assignment
    let counts = compute_event_counts_per_cluster(&cases, &vec![0, 0, 3], 2);
    assert_eq!(counts.len(), 2);
    assert_eq!(counts[0], vec![("a".to_string(), 2), ("b".to_string(), 2)]);
    assert!(counts[1].is_empty());

    let counts = compute_event_counts_per_cluster(&cases, &vec![1, 0, 0, 1], 2);
    assert_eq!(counts[0], vec![("a".to_string(), 1), ("c".to_string(), 1)]);
    assert_eq!(counts[1], vec![("b".to_string(), 2), ("a".to_string(), 1), ("z".to_string(), 1)]);
}

fn timed(time: &str, event_type: &str, objects: &[&str]) -> CaseEventRecord {
    CaseEventRecord {
        time: Some(time.to_string()),
        event_type: Some(event_type.to_string()),
        object_ids: objects.iter().map(|o| Some(o.to_string())).collect(),
    }
}

fn typed_object(id: &str, object_type: &str) -> CaseObjectRecord {
    CaseObjectRecord { id: Some(id.to_string()), object_type: Some(object_type.to_string()) }
}

fn sorted_edges(c: &[((usize, usize), usize)]) -> Vec<((usize, usize), usize)> {
    let mut v = c.to_vec();
    v.sort();
    v
}

fn sorted_e2o(c: &[((usize, String), usize)]) -> Vec<((usize, String), usize)> {
    let mut v = c.to_vec();
    v.sort();
    v
}

#[test]
fn type_only_counts_follow_event_time_per_view() {
    let case = CaseRecord {
        object_type_names: vec![],
        events: vec![
            timed("2024-01-01T10:00:00Z", "ship", &["o1"]),
            timed("2024-01-01T08:00:00Z", "create", &["o1", "i1", "i2"]),
            timed("2024-01-01T09:00:00+00:00", "pack", &["i1", "zz"]),
            timed("not a time", "pack", &["o1"]),
            timed("2024-01-01T11:00:00Z", "unknown", &["o1"]),
            CaseEventRecord { time: Some("2024-01-01T12:00:00Z".to_string()), event_type: None, object_ids: vec![Some("o1".to_string())] },
        ],
        objects: vec![typed_object("o1", "order"), typed_object("i1", "item"), typed_object("i2", "item")],
    };
    let views = vec!["item".to_string(), "order".to_string()];
    let ids = vec![("create".to_string(), 0), ("pack".to_string(), 1), ("ship".to_string(), 2)];
    let (df, e2o) = extract_df_and_e2o_counts_type_only(&case, &views, &ids);
    assert_eq!(df.len(), 2);
    // items: create (08:00) -> pack (09:00)
    assert_eq!(sorted_edges(&df[0]), vec![((0, 1), 1)]);
    // orders: create (08:00) -> ship (10:00)
    assert_eq!(sorted_edges(&df[1]), vec![((0, 2), 1)]);
    // create relates to two items but counts once per object type
    assert_eq!(
        sorted_e2o(&e2o),
        vec![
            ((0, "item".to_string()), 1),
            ((0, "order".to_string()), 1),
            ((1, "item".to_string()), 1),
            ((2, "order".to_string()), 1),
        ]
    );
}

#[test]
fn type_only_counts_keep_the_order_of_equal_times() {
    let case = CaseRecord {
        object_type_names: vec![],
        events: vec![
            timed("2024-01-01T10:00:00Z", "b", &["o1"]),
            timed("2024-01-01T10:00:00Z", "a", &["o1"]),
            timed("2024-01-01T09:00:00Z", "b", &["o1"]),
        ],
        objects: vec![typed_object("o1", "order")],
    };
    let views = vec!["order".to_string()];
    let ids = vec![("a".to_string(), 0), ("b".to_string(), 1)];
    let (df, _) = extract_df_and_e2o_counts_type_only(&case, &views, &ids);
    // b (09:00), then b and a at 10:00 in log order
    assert_eq!(sorted_edges(&df[0]), vec![((1, 0), 1), ((1, 1), 1)]);
}

#[test]
fn object_instance_counts_follow_each_object() {
    let case = CaseRecord {
        object_type_names: vec![],
        events: vec![
            timed("2024-01-01T08:00:00Z", "create", &["i1", "i2", "o1"]),
            timed("2024-01-01T09:00:00Z", "pack", &["i1", "i1"]),
            timed("2024-01-01T10:00:00Z", "ship", &["i2", "o1", "zz"]),
            timed("bad", "ship", &["i1"]),
        ],
        objects: vec![typed_object("o1", "order"), typed_object("i1", "item"), typed_object("i2", "item")],
    };
    let views = vec!["item".to_string(), "order".to_string()];
    let ids = vec![("create".to_string(), 0), ("pack".to_string(), 1), ("ship".to_string(), 2)];
    let (df, e2o) = extract_df_and_e2o_counts_object_instance(&case, &views, &ids);
    assert_eq!(df.len(), 2);
    // i1: create, pack, pack (named twice); i2: create, ship
    assert_eq!(sorted_edges(&df[0]), vec![((0, 1), 1), ((0, 2), 1), ((1, 1), 1)]);
    // o1: create, ship
    assert_eq!(sorted_edges(&df[1]), vec![((0, 2), 1)]);
    assert_eq!(
        sorted_e2o(&e2o),
        vec![
            ((0, "item".to_string()), 1),
            ((0, "order".to_string()), 1),
            ((1, "item".to_string()), 1),
            ((2, "item".to_string()), 1),
            ((2, "order".to_string()), 1),
        ]
    );
}

#[test]
fn counts_skip_views_that_are_not_listed() {
    let case = CaseRecord {
        object_type_names: vec![],
        events: vec![timed("2024-01-01T08:00:00Z", "a", &["o1"]), timed("2024-01-01T09:00:00Z", "a", &["o1"])],
        objects: vec![typed_object("o1", "order")],
    };
    let views = vec!["item".to_string()];
    let ids = vec![("a".to_string(), 0)];
    let (df, e2o) = extract_df_and_e2o_counts_object_instance(&case, &views, &ids);
    assert!(df[0].is_empty());
    assert_eq!(e2o, vec![((0, "order".to_string()), 2)]);
    let (df, _) = extract_df_and_e2o_counts_type_only(&case, &views, &ids);
    assert!(df[0].is_empty());
}
