use txtplus::tree::{generate_tree_string, parse_bullet_points, render_tree, TreeNode};

#[test]
fn new_node_has_no_children() {
    let node = TreeNode::new("leaf".to_string());
    assert_eq!(node.value, "leaf");
    assert!(node.children.is_empty());
}

#[test]
fn bullet_tree_has_the_depths_of_its_indentation() {
    let root = parse_bullet_points(&["- First", "    - Second", "    - Third", "- Fourth"]);
    assert_eq!(root.value, ".");
    assert_eq!(root.children.len(), 2);
    assert_eq!(root.children[0].value, "First");
    assert_eq!(root.children[1].value, "Fourth");
    assert_eq!(root.children[0].children.len(), 2);
    assert_eq!(root.children[0].children[0].value, "Second");
    assert_eq!(root.children[0].children[1].value, "Third");
    assert_eq!(root.children[0].children[0].children.len(), 0);
    assert_eq!(root.children[0].children[1].children.len(), 0);
    assert_eq!(root.children[1].children.len(), 0);
}

#[test]
fn bullet_tree_renders_with_connectors() {
    let root = parse_bullet_points(&["- First", "    - Second", "    - Third", "- Fourth"]);
    let text = generate_tree_string(&root, String::new(), true);
    assert_eq!(
        text,
        ".\n    ├── First\n    │   ├── Second\n    │   └── Third\n    └── Fourth\n"
    );
    assert_eq!(text.lines().last(), Some("    └── Fourth"));
}

#[test]
fn empty_bullet_list_is_a_lone_root() {
    let root = parse_bullet_points(&[]);
    assert_eq!(root.value, ".");
    assert!(root.children.is_empty());
    assert_eq!(generate_tree_string(&root, String::new(), true), ".\n");
}

#[test]
fn indentation_is_divided_by_four_and_truncated() {
    let root = parse_bullet_points(&["- a", "   - b", "     - c", "       - d", "        - e"]);
    assert_eq!(root.children.len(), 2);
    assert_eq!(root.children[0].value, "a");
    assert_eq!(root.children[1].value, "b");
    assert_eq!(root.children[1].children.len(), 2);
    assert_eq!(root.children[1].children[0].value, "c");
    assert_eq!(root.children[1].children[1].value, "d");
    assert_eq!(root.children[1].children[1].children.len(), 1);
    assert_eq!(root.children[1].children[1].children[0].value, "e");
}

#[test]
fn a_line_two_levels_down_is_passed_over() {
    let root = parse_bullet_points(&["- a", "        - lost", "    - b"]);
    assert_eq!(root.children.len(), 1);
    assert_eq!(root.children[0].children.len(), 1);
    assert_eq!(root.children[0].children[0].value, "b");
    assert_eq!(root.children[0].children[0].children.len(), 0);
}

#[test]
fn a_shallower_line_ends_the_children() {
    let root = parse_bullet_points(&["    - deep", "- top", "    - under"]);
    assert_eq!(root.children.len(), 1);
    assert_eq!(root.children[0].value, "top");
    assert_eq!(root.children[0].children.len(), 1);
    assert_eq!(root.children[0].children[0].value, "under");
}

#[test]
fn label_loses_one_dash_and_outer_whitespace() {
    let root = parse_bullet_points(&["-   spaced out  ", "no dash", "--double", "\t- tabbed", "-"]);
    let labels: Vec<&str> = root.children.iter().map(|c| c.value.as_str()).collect();
    assert_eq!(labels, vec!["spaced out", "no dash", "-double", "tabbed", ""]);
}

#[test]
fn node_under_a_prefix_gets_its_connector() {
    let mut node = TreeNode::new("  n  ".to_string());
    node.children.push(TreeNode::new("c1".to_string()));
    node.children.push(TreeNode::new("c2".to_string()));
    assert_eq!(
        generate_tree_string(&node, "ab".to_string(), false),
        "ab├── n\nab│   ├── c1\nab│   └── c2\n"
    );
    assert_eq!(
        generate_tree_string(&node, "ab".to_string(), true),
        "ab└── n\nab    ├── c1\nab    └── c2\n"
    );
    assert_eq!(
        generate_tree_string(&node, String::new(), false),
        "n\n│   ├── c1\n│   └── c2\n"
    );
}

#[test]
fn render_tree_takes_off_the_end_marker() {
    let mut buffer: Vec<String> = ["- First", "    - Second", "    - Third", "- Fourth", "@@end::tree"]
        .iter()
        .map(|s| s.to_string())
        .collect();
    let text = render_tree(&mut buffer);
    assert_eq!(
        text,
        ".\n    ├── First\n    │   ├── Second\n    │   └── Third\n    └── Fourth\n"
    );
    assert_eq!(buffer, vec!["- First", "    - Second", "    - Third", "- Fourth"]);
}

#[test]
fn render_tree_of_nothing_is_the_root() {
    let mut only_marker = vec!["@@end::tree".to_string()];
    assert_eq!(render_tree(&mut only_marker), ".\n");
    assert!(only_marker.is_empty());
    let mut empty: Vec<String> = Vec::new();
    assert_eq!(render_tree(&mut empty), ".\n");
    assert!(empty.is_empty());
}

#[test]
fn deep_chain_renders_blank_rails_under_last_children() {
    let root = parse_bullet_points(&["- a", "    - b", "        - c"]);
    assert_eq!(
        generate_tree_string(&root, String::new(), true),
        ".\n    └── a\n        └── b\n            └── c\n"
    );
}
