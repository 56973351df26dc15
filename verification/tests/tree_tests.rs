use gitsync::tree::{tree_level, TreeEntry, TreeNode};

fn file_entry(name: &str) -> TreeEntry {
    TreeEntry { name: Some(name.to_string()), subtree: None }
}

#[test]
fn tree_levels_are_sorted_by_name() {
    let sub = vec![TreeNode { name: "inner.rs".to_string(), is_directory: false, children: vec![] }];
    let entries = vec![
        file_entry("zeta"),
        TreeEntry { name: Some("src".to_string()), subtree: Some(sub) },
        file_entry("Alpha"),
        TreeEntry { name: None, subtree: None },
        file_entry("beta"),
    ];
    let nodes = tree_level(entries);
    let names: Vec<&str> = nodes.iter().map(|n| n.name.as_str()).collect();
    assert_eq!(names, vec!["Alpha", "beta", "src", "zeta"]);
    assert!(nodes[2].is_directory);
    assert_eq!(nodes[2].children.len(), 1);
    assert_eq!(nodes[2].children[0].name, "inner.rs");
    assert!(!nodes[0].is_directory);
}

#[test]
fn directories_replace_and_files_do_not() {
    let entries = vec![
        file_entry("x"),
        TreeEntry { name: Some("x".to_string()), subtree: Some(vec![]) },
        file_entry("x"),
    ];
    let nodes = tree_level(entries);
    assert_eq!(nodes.len(), 1);
    assert!(nodes[0].is_directory);
}
