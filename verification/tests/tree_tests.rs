use files_to_prompt::ignore::CustomIgnore;
use files_to_prompt::tree::AUTO_TOC_LINE_THRESHOLD;
use files_to_prompt::TocMode;
use files_to_prompt::TreeGenerator;
use files_to_prompt::TreeNode;

#[test]
fn test_tree_node_creation() {
    let node = TreeNode::new("test".to_string(), "/test".to_string(), false);

    assert_eq!(node.name, "test");
    assert_eq!(node.path, "/test");
    assert!(!node.is_file);
    assert!(node.children.is_empty());
}

#[test]
fn test_tree_node_count() {
    let mut root = TreeNode::new("root".to_string(), "/root".to_string(), false);
    let child1 = TreeNode::new("child1".to_string(), "/root/child1".to_string(), true);
    let child2 = TreeNode::new("child2".to_string(), "/root/child2".to_string(), false);

    root.add_child(child1);
    root.add_child(child2);

    assert_eq!(root.count_nodes(), 3);
    assert_eq!(root.count_files(), 1);
}

#[test]
fn test_tree_rendering() {
    let mut root = TreeNode::new("root".to_string(), "/root".to_string(), false);
    let mut subdir = TreeNode::new("subdir".to_string(), "/root/subdir".to_string(), false);
    let file1 = TreeNode::new("file1.txt".to_string(), "/root/file1.txt".to_string(), true);
    let file2 = TreeNode::new(
        "file2.txt".to_string(),
        "/root/subdir/file2.txt".to_string(),
        true,
    );

    subdir.add_child(file2);
    root.add_child(file1);
    root.add_child(subdir);

    let generator = TreeGenerator::new(
        vec![],
        false,
        true,
        CustomIgnore::new(vec![], false).unwrap(),
    );
    let output = generator.render_tree(&vec![root], TocMode::FilesAndDirs);

    assert!(output.contains("root/"));
    assert!(output.contains("├── file1.txt"));
    assert!(output.contains("└── subdir/"));
    assert!(output.contains("    └── file2.txt"));
}

#[test]
fn test_auto_mode_line_estimation() {
    let mut root = TreeNode::new("root".to_string(), "/root".to_string(), false);

    // Create many children to exceed the threshold
    for i in 0..50 {
        let file = TreeNode::new(
            format!("file{}.txt", i),
            format!("/root/file{}.txt", i),
            true,
        );
        root.add_child(file);
    }

    assert!(root.estimate_render_lines(true) > 50);
    assert_eq!(root.estimate_render_lines(false), 1); // Only the root directory
}

fn tree_with_files(n: usize) -> TreeNode {
    let mut root = TreeNode::new("root".to_string(), "/root".to_string(), false);
    for i in 0..n {
        // zero-pad so names sort in insertion order
        let name = format!("file{:03}.txt", i);
        let file = TreeNode::new(name.clone(), format!("/root/{}", name), true);
        root.add_child(file);
    }
    root
}

#[test]
fn test_auto_mode_boundary_at_threshold() {
    assert_eq!(AUTO_TOC_LINE_THRESHOLD, 100);
    // 99 files + the root: estimate with files is exactly 100
    let root = tree_with_files(99);
    assert_eq!(root.estimate_render_lines(true), 100);
    let generator = TreeGenerator::new(
        vec![],
        false,
        true,
        CustomIgnore::new(vec![], false).unwrap(),
    );
    let output = generator.render_tree(&vec![root], TocMode::Auto);
    // files are hidden: only the root line remains
    assert_eq!(output, "└── root/");
}

#[test]
fn test_auto_mode_boundary_below_threshold() {
    // 98 files + the root: estimate with files is 99, files stay shown
    let root = tree_with_files(98);
    assert_eq!(root.estimate_render_lines(true), 99);
    let generator = TreeGenerator::new(
        vec![],
        false,
        true,
        CustomIgnore::new(vec![], false).unwrap(),
    );
    let output = generator.render_tree(&vec![root], TocMode::Auto);
    assert!(output.contains("file000.txt"));
    assert_eq!(output.lines().count(), 99);
}

#[test]
fn test_add_child_replaces_same_name() {
    let mut root = TreeNode::new("root".to_string(), "/root".to_string(), false);
    root.add_child(TreeNode::new("a".to_string(), "/root/a".to_string(), true));
    root.add_child(TreeNode::new("a".to_string(), "/root/a".to_string(), true));
    assert_eq!(root.count_nodes(), 2);
}

#[test]
fn test_add_child_keeps_names_sorted() {
    let mut root = TreeNode::new("root".to_string(), "/root".to_string(), false);
    root.add_child(TreeNode::new("b".to_string(), "/root/b".to_string(), true));
    root.add_child(TreeNode::new("a".to_string(), "/root/a".to_string(), true));
    root.add_child(TreeNode::new("c".to_string(), "/root/c".to_string(), true));
    let names: Vec<&str> = root.children.iter().map(|c| c.name.as_str()).collect();
    assert_eq!(names, vec!["a", "b", "c"]);
}

#[test]
fn test_insert_path_idempotent() {
    let mut once = TreeNode::new("root".to_string(), "root".to_string(), false);
    let segs = vec!["sub".to_string(), "b.txt".to_string()];
    once.insert_path(&segs, 0, true);
    let mut twice = TreeNode::new("root".to_string(), "root".to_string(), false);
    twice.insert_path(&segs, 0, true);
    twice.insert_path(&segs, 0, true);
    assert_eq!(once.count_nodes(), twice.count_nodes());
    assert_eq!(once.count_files(), twice.count_files());
    assert_eq!(once.children.len(), twice.children.len());
    assert_eq!(once.children[0].name, "sub");
    assert_eq!(twice.children[0].name, "sub");
    assert_eq!(once.children[0].children[0].name, "b.txt");
    assert_eq!(twice.children[0].children[0].name, "b.txt");
}

#[test]
fn test_add_path_to_tree_relative_segments() {
    let generator = TreeGenerator::new(
        vec![],
        false,
        true,
        CustomIgnore::new(vec![], false).unwrap(),
    );
    let mut root = TreeNode::new("base".to_string(), "base".to_string(), false);
    generator.add_path_to_tree(&mut root, "base", "base/sub/file.txt", true);
    assert_eq!(root.children.len(), 1);
    assert_eq!(root.children[0].name, "sub");
    assert!(!root.children[0].is_file);
    assert_eq!(root.children[0].children[0].name, "file.txt");
    assert!(root.children[0].children[0].is_file);
    // a path outside the base changes nothing
    generator.add_path_to_tree(&mut root, "base", "elsewhere/x.txt", true);
    assert_eq!(root.count_nodes(), 3);
}
