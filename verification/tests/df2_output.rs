use scope_backend::df2_miner::ocpt_generator::{filter_activities, filter_dfg};
use scope_backend::df2_miner::convert_to_json_tree::{build_output, convert_tree, HierarchyNode, TreeNode};

fn node(label: &str, children: Vec<TreeNode>) -> TreeNode {
    TreeNode { label: label.to_string(), children }
}

fn map(entries: &[(&str, &[&str])]) -> Vec<(String, Vec<String>)> {
    entries.iter().map(|(k, v)| (k.to_string(), v.iter().map(|s| s.to_string()).collect())).collect()
}

fn describe(h: &HierarchyNode) -> String {
    match h {
        HierarchyNode::Operator { value, children } => {
            let inner: Vec<String> = children.iter().map(describe).collect();
            format!("{}({})", value, inner.join(","))
        }
        HierarchyNode::Activity { value } => {
            let ots: Vec<String> = value
                .ots
                .iter()
                .map(|o| match &o.exhibits {
                    Some(e) => format!("{}:{}", o.ot, e.join("+")),
                    None => o.ot.clone(),
                })
                .collect();
            let silent = match value.is_silent {
                Some(true) => "!",
                _ => "",
            };
            format!("{}{}[{}]", silent, value.activity, ots.join(" "))
        }
    }
}

#[test]
fn operators_are_renamed_and_activities_list_patterns() {
    let tree = node("seq", vec![
        node("a", vec![]),
        node("excl", vec![node("b", vec![]), node("tau", vec![])]),
        node("para", vec![node("c", vec![])]),
        node("redo", vec![node("a", vec![])]),
    ]);
    let con = map(&[("a", &["orders", "items"])]);
    let defi = map(&[("a", &["items"]), ("b", &["orders"])]);
    let div = map(&[("b", &["orders", "customers"])]);
    let h = convert_tree(&tree, &con, &defi, &div);
    assert_eq!(
        describe(&h),
        "sequence(a[items:con+def orders:con],xor(b[customers:div orders:def+div],!tau[]),parallel(c[]),redo(a[items:con+def orders:con]))"
    );
}

#[test]
fn single_tree_forest_is_the_hierarchy() {
    let forest = vec![node("a", vec![])];
    let con = map(&[("a", &["o"])]);
    let out = build_output(&forest, &con, &Vec::new(), &map(&[("b", &["p", "o"])]));
    assert_eq!(out.ots, vec!["o".to_string(), "p".to_string()]);
    assert_eq!(describe(&out.hierarchy), "a[o:con]");
}

#[test]
fn several_trees_go_under_a_sequence() {
    let forest = vec![node("a", vec![]), node("b", vec![])];
    let out = build_output(&forest, &Vec::new(), &Vec::new(), &Vec::new());
    assert!(out.ots.is_empty());
    assert_eq!(describe(&out.hierarchy), "sequence(a[],b[])");
}

#[test]
fn removed_activities_leave_the_graph() {
    let remove = vec!["failed delivery".to_string(), "payment reminder".to_string()];
    let dfg = vec![
        (("place".to_string(), "pay".to_string()), 3),
        (("pay".to_string(), "payment reminder".to_string()), 1),
        (("failed delivery".to_string(), "ship".to_string()), 2),
        (("pay".to_string(), "ship".to_string()), 5),
    ];
    let kept = filter_dfg(&dfg, &remove);
    assert_eq!(
        kept,
        vec![(("place".to_string(), "pay".to_string()), 3), (("pay".to_string(), "ship".to_string()), 5)]
    );
    let acts: Vec<String> = ["place", "pay", "failed delivery", "pay", "ship"].iter().map(|s| s.to_string()).collect();
    assert_eq!(filter_activities(&acts, &remove), vec!["place".to_string(), "pay".to_string(), "ship".to_string()]);
}
