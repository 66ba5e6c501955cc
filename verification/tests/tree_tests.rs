use spektr::path::DirPath;
use spektr::scanner::CleanableProject;
use spektr::strategy::{RiskLevel, StrategyKind};
use spektr::tree::{
    apply_tree_op, build_tree, collect_checked_projects, count_checked_projects, flatten_tree,
    sum_checked_size, NodeOp, TreeNode,
};

fn seg(name: &str) -> Vec<u8> {
    name.as_bytes().to_vec()
}

fn path(parts: &[&str]) -> DirPath {
    DirPath {
        segments: parts.iter().map(|p| seg(p)).collect(),
    }
}

fn project(parts: &[&str], kind: StrategyKind, size: u64) -> CleanableProject {
    CleanableProject {
        root_path: path(parts),
        kind,
        targets: vec![],
        total_size: size,
        risk_level: RiskLevel::Low,
    }
}

fn labels(nodes: &[TreeNode]) -> Vec<String> {
    nodes
        .iter()
        .map(|n| String::from_utf8(n.label()).unwrap())
        .collect()
}

#[test]
fn build_tree_nests_by_path_segments() {
    let projects = vec![
        project(&["root", "a", "x"], StrategyKind::Rust, 10),
        project(&["root", "a"], StrategyKind::NodeJs, 5),
        project(&["root", "b"], StrategyKind::Flutter, 7),
    ];
    let forest = build_tree(&projects, &path(&["root"]));
    assert_eq!(labels(&forest), vec!["a", "b"]);
    assert_eq!(labels(&forest[0].children), vec!["x"]);
    assert!(forest[0].project.is_some());
    assert!(forest[0].children[0].project.is_some());
    assert!(forest[1].children.is_empty());
}

#[test]
fn build_tree_creates_folder_nodes_on_demand() {
    let projects = vec![project(&["root", "deep", "er", "p"], StrategyKind::Rust, 3)];
    let forest = build_tree(&projects, &path(&["root"]));
    assert_eq!(labels(&forest), vec!["deep"]);
    assert!(forest[0].project.is_none());
    assert_eq!(labels(&forest[0].children), vec!["er"]);
    assert!(forest[0].children[0].project.is_none());
    assert_eq!(labels(&forest[0].children[0].children), vec!["p"]);
    assert!(forest[0].children[0].children[0].project.is_some());
}

#[test]
fn build_tree_sorts_levels_case_insensitively() {
    let projects = vec![
        project(&["root", "beta"], StrategyKind::Rust, 1),
        project(&["root", "Alpha"], StrategyKind::Rust, 1),
        project(&["root", "gamma"], StrategyKind::Rust, 1),
    ];
    let forest = build_tree(&projects, &path(&["root"]));
    assert_eq!(labels(&forest), vec!["Alpha", "beta", "gamma"]);
}

#[test]
fn project_at_scan_root_becomes_synthetic_root_node() {
    let projects = vec![project(&["root"], StrategyKind::Rust, 9)];
    let forest = build_tree(&projects, &path(&["root"]));
    assert_eq!(forest.len(), 1);
    assert!(forest[0].project.is_some());
    assert_eq!(forest[0].total_size(), 9);
}

#[test]
fn project_outside_scan_root_becomes_own_root() {
    let projects = vec![project(&["elsewhere", "p"], StrategyKind::Rust, 4)];
    let forest = build_tree(&projects, &path(&["root"]));
    assert_eq!(forest.len(), 1);
    assert_eq!(labels(&forest), vec!["p"]);
    assert!(forest[0].project.is_some());
}

#[test]
fn total_size_aggregates_own_project_and_children() {
    // The node's total is its own project's size (0 for a folder) plus
    // its children's totals, at every level.
    let projects = vec![
        project(&["root", "a"], StrategyKind::NodeJs, 5),
        project(&["root", "a", "x"], StrategyKind::Rust, 10),
        project(&["root", "a", "y"], StrategyKind::Rust, 2),
        project(&["root", "b"], StrategyKind::Flutter, 7),
    ];
    let forest = build_tree(&projects, &path(&["root"]));
    assert_eq!(forest[0].total_size(), 17);
    assert_eq!(forest[1].total_size(), 7);
    assert_eq!(forest[0].children[0].total_size(), 10);
}

#[test]
fn set_checked_propagates_to_whole_subtree() {
    let projects = vec![
        project(&["root", "a"], StrategyKind::NodeJs, 5),
        project(&["root", "a", "x"], StrategyKind::Rust, 10),
        project(&["root", "b"], StrategyKind::Flutter, 7),
    ];
    let mut forest = build_tree(&projects, &path(&["root"]));
    forest[0].set_checked(true);
    assert!(forest[0].checked);
    assert!(forest[0].children[0].checked);
    // A sibling keeps its own state.
    assert!(!forest[1].checked);
    forest[0].set_checked(false);
    assert!(!forest[0].checked);
    assert!(!forest[0].children[0].checked);
}

#[test]
fn flatten_emits_preorder_with_guide_prefixes() {
    let projects = vec![
        project(&["root", "a", "x"], StrategyKind::Rust, 10),
        project(&["root", "a", "y"], StrategyKind::Rust, 2),
        project(&["root", "b"], StrategyKind::Flutter, 7),
    ];
    let forest = build_tree(&projects, &path(&["root"]));
    let flat = flatten_tree(&forest);
    let rows: Vec<(usize, String, String)> = flat
        .iter()
        .map(|f| {
            (
                f.depth,
                f.guide_prefix.clone(),
                String::from_utf8(f.label.clone()).unwrap(),
            )
        })
        .collect();
    assert_eq!(
        rows,
        vec![
            (0, "".to_string(), "a".to_string()),
            (1, "├─ ".to_string(), "x".to_string()),
            (1, "└─ ".to_string(), "y".to_string()),
            (0, "".to_string(), "b".to_string()),
        ]
    );
}

#[test]
fn flatten_guide_prefix_continues_ancestor_lines() {
    let projects = vec![
        project(&["root", "a", "x", "deep"], StrategyKind::Rust, 1),
        project(&["root", "a", "y"], StrategyKind::Rust, 1),
    ];
    let forest = build_tree(&projects, &path(&["root"]));
    let flat = flatten_tree(&forest);
    let rows: Vec<(usize, String, String)> = flat
        .iter()
        .map(|f| {
            (
                f.depth,
                f.guide_prefix.clone(),
                String::from_utf8(f.label.clone()).unwrap(),
            )
        })
        .collect();
    // x is not the last child of a, so its subtree keeps a vertical bar.
    assert_eq!(
        rows,
        vec![
            (0, "".to_string(), "a".to_string()),
            (1, "├─ ".to_string(), "x".to_string()),
            (2, "│  └─ ".to_string(), "deep".to_string()),
            (1, "└─ ".to_string(), "y".to_string()),
        ]
    );
}

#[test]
fn flatten_twice_without_mutation_is_identical() {
    let projects = vec![
        project(&["root", "a", "x"], StrategyKind::Rust, 10),
        project(&["root", "b"], StrategyKind::Flutter, 7),
    ];
    let forest = build_tree(&projects, &path(&["root"]));
    let first = flatten_tree(&forest);
    let second = flatten_tree(&forest);
    assert_eq!(first.len(), second.len());
    for (a, b) in first.iter().zip(second.iter()) {
        assert_eq!(a.depth, b.depth);
        assert_eq!(a.guide_prefix, b.guide_prefix);
        assert_eq!(a.label, b.label);
        assert_eq!(a.checked, b.checked);
        assert_eq!(a.collapsed, b.collapsed);
    }
}

#[test]
fn collapsed_node_hides_its_children_in_flatten() {
    let projects = vec![
        project(&["root", "a", "x"], StrategyKind::Rust, 10),
        project(&["root", "b"], StrategyKind::Flutter, 7),
    ];
    let mut forest = build_tree(&projects, &path(&["root"]));
    // Collapse the node at visible position 0 ("a").
    let found = apply_tree_op(&mut forest, 0, NodeOp::ToggleExpand);
    assert!(found);
    let flat = flatten_tree(&forest);
    let names: Vec<String> = flat
        .iter()
        .map(|f| String::from_utf8(f.label.clone()).unwrap())
        .collect();
    assert_eq!(names, vec!["a", "b"]);
    assert!(flat[0].collapsed);
}

#[test]
fn toggle_checked_at_visible_position_checks_subtree_only() {
    let projects = vec![
        project(&["root", "a", "x"], StrategyKind::Rust, 10),
        project(&["root", "b"], StrategyKind::Flutter, 7),
    ];
    let mut forest = build_tree(&projects, &path(&["root"]));
    // Visible rows: a, a/x, b. Toggle at position 1 (the leaf x).
    let found = apply_tree_op(&mut forest, 1, NodeOp::ToggleChecked);
    assert!(found);
    assert!(!forest[0].checked);
    assert!(forest[0].children[0].checked);
    assert!(!forest[1].checked);
    assert_eq!(count_checked_projects(&forest), 1);
    assert_eq!(sum_checked_size(&forest), 10);
    let listed = collect_checked_projects(&forest);
    assert_eq!(listed.len(), 1);
    assert_eq!(listed[0].total_size, 10);
    // An out-of-range position changes nothing.
    let missed = apply_tree_op(&mut forest, 99, NodeOp::ToggleChecked);
    assert!(!missed);
}

#[test]
fn expand_toggle_ignores_leaves() {
    let projects = vec![project(&["root", "a"], StrategyKind::Rust, 1)];
    let mut forest = build_tree(&projects, &path(&["root"]));
    let found = apply_tree_op(&mut forest, 0, NodeOp::ToggleExpand);
    assert!(found);
    // A leaf has no children to hide, so its collapsed flag stays.
    assert!(!forest[0].collapsed);
}

#[test]
fn guide_prefix_uses_gap_after_last_child_ancestor() {
    let projects = vec![project(&["root", "a", "x", "deep"], StrategyKind::Rust, 1)];
    let forest = build_tree(&projects, &path(&["root"]));
    let flat = flatten_tree(&forest);
    let rows: Vec<(usize, String, String)> = flat
        .iter()
        .map(|f| {
            (
                f.depth,
                f.guide_prefix.clone(),
                String::from_utf8(f.label.clone()).unwrap(),
            )
        })
        .collect();
    // x is a's last child, so deep's prefix opens with a gap, not a bar.
    assert_eq!(
        rows,
        vec![
            (0, "".to_string(), "a".to_string()),
            (1, "└─ ".to_string(), "x".to_string()),
            (2, "   └─ ".to_string(), "deep".to_string()),
        ]
    );
}

#[test]
fn duplicate_project_path_keeps_one_node() {
    let projects = vec![
        project(&["root", "a"], StrategyKind::Rust, 3),
        project(&["root", "a"], StrategyKind::NodeJs, 8),
    ];
    let forest = build_tree(&projects, &path(&["root"]));
    assert_eq!(forest.len(), 1);
    // The later insertion wins the node's project slot.
    assert_eq!(forest[0].project.as_ref().unwrap().total_size, 8);
}
