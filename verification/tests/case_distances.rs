use scope_backend::clustering::k_medoids::{
    df_costs_per_view, df_edge_edit_distance_fast, e2o_costs_per_object_type, e2o_edge_edit_distance_fast,
    metric_name, sort_costs, DistanceMetric, E2OCounts, EdgeCounts,
};

fn e2o(entries: &[(usize, &str, usize)]) -> E2OCounts {
    entries.iter().map(|(e, t, c)| ((*e, t.to_string()), *c)).collect()
}

#[test]
fn metric_names_are_short_labels() {
    assert_eq!(metric_name(DistanceMetric::OCDFGE2O_TypeOnly), "dfg-typ");
    assert_eq!(metric_name(DistanceMetric::OCDFGE2O_ObjectInstance), "dfg-obj");
}

#[test]
fn df_distance_sums_count_differences_over_all_edges() {
    let a: EdgeCounts = vec![((0, 1), 3), ((1, 2), 1)];
    let b: EdgeCounts = vec![((0, 1), 1), ((2, 0), 4)];
    // |3 - 1| + |1 - 0| + |0 - 4|
    assert_eq!(df_edge_edit_distance_fast(&a, &b), 7);
}

#[test]
fn df_distance_is_symmetric_and_zero_on_itself() {
    let a: EdgeCounts = vec![((0, 1), 3), ((1, 2), 1), ((5, 5), 2)];
    let b: EdgeCounts = vec![((1, 2), 6), ((0, 1), 1)];
    assert_eq!(df_edge_edit_distance_fast(&a, &b), df_edge_edit_distance_fast(&b, &a));
    assert_eq!(df_edge_edit_distance_fast(&a, &a), 0);
    assert_eq!(df_edge_edit_distance_fast(&Vec::new(), &Vec::new()), 0);
}

#[test]
fn e2o_distance_sums_count_differences_over_all_keys() {
    let a = e2o(&[(0, "order", 2), (1, "item", 5)]);
    let b = e2o(&[(0, "order", 4), (2, "item", 1)]);
    // |2 - 4| + |5 - 0| + |0 - 1|
    assert_eq!(e2o_edge_edit_distance_fast(&a, &b), 8);
    assert_eq!(e2o_edge_edit_distance_fast(&b, &a), 8);
    assert_eq!(e2o_edge_edit_distance_fast(&a, &a), 0);
}

#[test]
fn view_costs_come_largest_first_then_by_view_name() {
    let a: Vec<EdgeCounts> = vec![vec![((0, 1), 1)], vec![((0, 1), 5)], vec![((1, 1), 2)]];
    let b: Vec<EdgeCounts> = vec![vec![((0, 1), 3)], vec![((0, 1), 5)], vec![]];
    let views = vec!["order".to_string(), "item".to_string(), "delivery".to_string()];
    let costs = df_costs_per_view(&a, &b, &views);
    let got: Vec<(String, usize)> = costs.into_iter().map(|c| (c.view, c.df_cost)).collect();
    assert_eq!(
        got,
        vec![
            ("delivery".to_string(), 2),
            ("order".to_string(), 2),
            ("item".to_string(), 0),
        ]
    );
}

#[test]
fn object_type_costs_keep_positive_shares_sorted() {
    let a = e2o(&[(0, "order", 2), (1, "item", 5), (2, "item", 1), (3, "box", 1)]);
    let b = e2o(&[(0, "order", 4), (2, "item", 1), (4, "pallet", 2), (3, "box", 1)]);
    let costs = e2o_costs_per_object_type(&a, &b);
    let got: Vec<(String, usize)> = costs.into_iter().map(|c| (c.object_type, c.cost)).collect();
    // item: |5 - 0| + |1 - 1|; order: |2 - 4|; pallet: 2; box: 0 (left out)
    assert_eq!(
        got,
        vec![
            ("item".to_string(), 5),
            ("order".to_string(), 2),
            ("pallet".to_string(), 2),
        ]
    );
    let total: usize = e2o_costs_per_object_type(&a, &b).iter().map(|c| c.cost).sum();
    assert_eq!(total, e2o_edge_edit_distance_fast(&a, &b));
}

#[test]
fn cost_sort_is_stable_for_equal_entries() {
    let v = vec![
        ("b".to_string(), 1),
        ("a".to_string(), 1),
        ("c".to_string(), 3),
        ("a".to_string(), 1),
    ];
    assert_eq!(
        sort_costs(v),
        vec![
            ("c".to_string(), 3),
            ("a".to_string(), 1),
            ("a".to_string(), 1),
            ("b".to_string(), 1),
        ]
    );
}
