use files_to_prompt::walker::FileContent;
use files_to_prompt::walker::FsDir;
use files_to_prompt::walker::FsEntry;
use files_to_prompt::walker::RootPath;
use files_to_prompt::DefaultFormatter;
use files_to_prompt::FileProcessor;
use files_to_prompt::FilesToPromptError;
use files_to_prompt::TocMode;

fn file(name: &str, content: &str) -> FsEntry {
    FsEntry::File {
        name: name.to_string(),
        content: FileContent::Text(content.to_string()),
    }
}

fn dir(name: &str, entries: Vec<FsEntry>) -> FsEntry {
    FsEntry::Dir {
        name: name.to_string(),
        dir: FsDir { entries, read_error: None, extra_rules: String::new() },
    }
}

fn dir_root(path: &str, entries: Vec<FsEntry>) -> RootPath {
    RootPath::Dir {
        path: path.to_string(),
        dir: FsDir { entries, read_error: None, extra_rules: String::new() },
    }
}

fn processor(
    extensions: Vec<&str>,
    ignore_gitignore: bool,
    ignore_patterns: Vec<&str>,
    ignore_files_only: bool,
) -> FileProcessor {
    FileProcessor::new(
        extensions.into_iter().map(|s| s.to_string()).collect(),
        false,
        ignore_files_only,
        ignore_gitignore,
        ignore_patterns.into_iter().map(|s| s.to_string()).collect(),
        false,
        None,
    )
    .unwrap()
}

#[test]
fn test_gitignore_respected_and_disabled() {
    let entries = vec![
        file(".gitignore", "ignored.txt"),
        file("ignored.txt", "secret"),
        file("kept.txt", "fine"),
    ];
    let fp = processor(vec![], false, vec![], false);
    let mut fmt = DefaultFormatter::new();
    let (text, _) = fp
        .process_paths(&vec![dir_root("root", entries)], &mut fmt)
        .unwrap();
    assert!(text.contains("kept.txt"));
    assert!(!text.contains("ignored.txt"));

    let entries2 = vec![
        file(".gitignore", "ignored.txt"),
        file("ignored.txt", "secret"),
        file("kept.txt", "fine"),
    ];
    let fp2 = processor(vec![], true, vec![], false);
    let mut fmt2 = DefaultFormatter::new();
    let (text2, _) = fp2
        .process_paths(&vec![dir_root("root", entries2)], &mut fmt2)
        .unwrap();
    assert!(text2.contains("kept.txt"));
    assert!(text2.contains("ignored.txt"));
}

#[test]
fn test_gitignore_layer_scoped_to_subtree() {
    // a rule in a subdirectory's ignore file excludes inside it, not outside
    let entries = vec![
        dir(
            "nested",
            vec![file(".gitignore", "local.txt"), file("local.txt", "a"), file("other.txt", "b")],
        ),
        file("local.txt", "kept at the top"),
    ];
    let fp = processor(vec![], false, vec![], false);
    let mut fmt = DefaultFormatter::new();
    let (text, _) = fp
        .process_paths(&vec![dir_root("root", entries)], &mut fmt)
        .unwrap();
    assert!(text.contains("root/local.txt"));
    assert!(text.contains("root/nested/other.txt"));
    assert!(!text.contains("root/nested/local.txt"));
}

#[test]
fn test_custom_pattern_prunes_directory() {
    let entries = vec![
        dir("build", vec![file("artifact.txt", "x")]),
        file("keep.txt", "y"),
    ];
    let fp = processor(vec![], true, vec!["build/"], false);
    let mut fmt = DefaultFormatter::new();
    let (text, _) = fp
        .process_paths(&vec![dir_root("root", entries)], &mut fmt)
        .unwrap();
    assert!(text.contains("keep.txt"));
    assert!(!text.contains("artifact.txt"));
}

#[test]
fn test_custom_pattern_files_only_keeps_directory() {
    let entries = vec![
        dir("build", vec![file("artifact.txt", "x")]),
        file("keep.txt", "y"),
    ];
    let fp = processor(vec![], true, vec!["build/"], true);
    let mut fmt = DefaultFormatter::new();
    let (text, _) = fp
        .process_paths(&vec![dir_root("root", entries)], &mut fmt)
        .unwrap();
    assert!(text.contains("keep.txt"));
    assert!(text.contains("artifact.txt"));
}

#[test]
fn test_extension_filter_walk() {
    let entries = vec![
        file("a.py", "py a"),
        file("a.txt", "txt a"),
        dir("sub", vec![file("b.py", "py b")]),
    ];
    let fp = processor(vec!["py"], true, vec![], false);
    let mut fmt = DefaultFormatter::new();
    let (text, _) = fp
        .process_paths(&vec![dir_root("root", entries)], &mut fmt)
        .unwrap();
    assert!(text.contains("root/a.py"));
    assert!(text.contains("root/sub/b.py"));
    assert!(!text.contains("a.txt"));
}

#[test]
fn test_walk_order_is_lexicographic() {
    let entries = vec![file("b.txt", "2"), file("a.txt", "1"), file("c.txt", "3")];
    let fp = processor(vec![], true, vec![], false);
    let mut fmt = DefaultFormatter::new();
    let (text, _) = fp
        .process_paths(&vec![dir_root("root", entries)], &mut fmt)
        .unwrap();
    let a = text.find("root/a.txt").unwrap();
    let b = text.find("root/b.txt").unwrap();
    let c = text.find("root/c.txt").unwrap();
    assert!(a < b && b < c);
}

#[test]
fn test_hidden_entries_skipped_without_flag() {
    let entries = vec![
        file(".hidden.txt", "secret"),
        dir(".hiddendir", vec![file("inner.txt", "x")]),
        file("shown.txt", "y"),
    ];
    let fp = processor(vec![], true, vec![], false);
    let mut fmt = DefaultFormatter::new();
    let (text, _) = fp
        .process_paths(&vec![dir_root("root", entries)], &mut fmt)
        .unwrap();
    assert!(text.contains("shown.txt"));
    assert!(!text.contains("hidden"));
    assert!(!text.contains("inner.txt"));
}

#[test]
fn test_include_hidden_flag() {
    let entries = vec![file(".hidden.txt", "secret"), file("shown.txt", "y")];
    let fp = FileProcessor::new(vec![], true, false, true, vec![], false, None).unwrap();
    let mut fmt = DefaultFormatter::new();
    let (text, _) = fp
        .process_paths(&vec![dir_root("root", entries)], &mut fmt)
        .unwrap();
    assert!(text.contains(".hidden.txt"));
    assert!(text.contains("shown.txt"));
}

#[test]
fn test_binary_files_skipped_and_reported() {
    let entries = vec![
        FsEntry::File { name: "blob.bin".to_string(), content: FileContent::Binary },
        file("text.txt", "fine"),
    ];
    let fp = processor(vec![], true, vec![], false);
    let mut fmt = DefaultFormatter::new();
    let (text, skipped) = fp
        .process_paths(&vec![dir_root("root", entries)], &mut fmt)
        .unwrap();
    assert!(text.contains("text.txt"));
    assert!(!text.contains("blob.bin"));
    assert_eq!(skipped, vec!["root/blob.bin"]);
}

#[test]
fn test_unreadable_file_aborts() {
    let entries = vec![FsEntry::File {
        name: "locked.txt".to_string(),
        content: FileContent::Unreadable,
    }];
    let fp = processor(vec![], true, vec![], false);
    let mut fmt = DefaultFormatter::new();
    let r = fp.process_paths(&vec![dir_root("root", entries)], &mut fmt);
    match r {
        Err(FilesToPromptError::Io { .. }) => {}
        _ => panic!("expected an io error"),
    }
}

#[test]
fn test_unreadable_directory_aborts() {
    let root = RootPath::Dir {
        path: "root".to_string(),
        dir: FsDir {
            entries: vec![FsEntry::Dir {
                name: "sub".to_string(),
                dir: FsDir {
                    entries: vec![],
                    read_error: Some("permission denied".to_string()),
                    extra_rules: String::new(),
                },
            }],
            read_error: None,
            extra_rules: String::new(),
        },
    };
    let fp = processor(vec![], true, vec![], false);
    let mut fmt = DefaultFormatter::new();
    let r = fp.process_paths(&vec![root], &mut fmt);
    match r {
        Err(FilesToPromptError::Io { .. }) => {}
        _ => panic!("expected an io error"),
    }
}

#[test]
fn test_file_root_direct_admission() {
    // a directly named file skips custom patterns on purpose
    let fp = processor(vec![], true, vec!["*.log"], false);
    let root = RootPath::File {
        path: "notes.log".to_string(),
        content: FileContent::Text("kept anyway".to_string()),
    };
    let mut fmt = DefaultFormatter::new();
    let (text, _) = fp.process_paths(&vec![root], &mut fmt).unwrap();
    assert!(text.contains("notes.log"));
    assert!(text.contains("kept anyway"));
}

#[test]
fn test_round_trip_tree_rendering() {
    let entries = vec![file("a.txt", "1"), dir("sub", vec![file("b.txt", "2")])];
    let fp = FileProcessor::new(
        vec![],
        false,
        false,
        true,
        vec![],
        false,
        Some(TocMode::FilesAndDirs),
    )
    .unwrap();
    let mut fmt = DefaultFormatter::new();
    let (text, _) = fp
        .process_paths(&vec![dir_root("root", entries)], &mut fmt)
        .unwrap();
    let a_line = text.lines().find(|l| l.ends_with("a.txt") && l.contains("──")).unwrap();
    let sub_line = text.lines().find(|l| l.ends_with("sub/")).unwrap();
    let b_line = text.lines().find(|l| l.ends_with("b.txt") && l.contains("──")).unwrap();
    assert!(a_line.contains("├── a.txt"));
    assert!(sub_line.contains("└── sub/"));
    assert!(b_line.contains("    └── b.txt"));
    // the nested file is rendered more deeply indented than its directory
    let indent = |l: &str| l.chars().take_while(|c| *c != '└' && *c != '├').count();
    assert!(indent(b_line) > indent(sub_line));
}

#[test]
fn test_generate_tree_contains_admitted_entries() {
    let entries = vec![file("a.txt", "1"), dir("sub", vec![file("b.txt", "2")])];
    let generator = files_to_prompt::TreeGenerator::new(
        vec![],
        false,
        true,
        files_to_prompt::ignore::CustomIgnore::new(vec![], false).unwrap(),
    );
    let trees = generator.generate_tree(&vec![dir_root("root", entries)]).unwrap();
    assert_eq!(trees.len(), 1);
    let root = &trees[0];
    assert_eq!(root.name, "root");
    assert!(!root.is_file);
    assert_eq!(root.children.len(), 2);
    assert_eq!(root.children[0].name, "a.txt");
    assert!(root.children[0].is_file);
    assert_eq!(root.children[1].name, "sub");
    assert_eq!(root.children[1].children[0].name, "b.txt");
}

#[test]
fn test_gitignore_rule_with_separator_anchors_at_its_directory() {
    // a rule holding a separator matches relative to the directory whose
    // ignore file stated it, and nowhere else
    let entries = vec![
        dir("a", vec![file("b.txt", "kept")]),
        dir(
            "n",
            vec![file(".gitignore", "a/b.txt"), dir("a", vec![file("b.txt", "dropped")])],
        ),
    ];
    let fp = processor(vec![], false, vec![], false);
    let mut fmt = DefaultFormatter::new();
    let (text, _) = fp
        .process_paths(&vec![dir_root("root", entries)], &mut fmt)
        .unwrap();
    assert!(text.contains("root/a/b.txt"));
    assert!(!text.contains("root/n/a/b.txt"));
}

#[test]
fn test_dot_ignore_file_is_honoured() {
    let entries = vec![
        file(".ignore", "x.txt"),
        file("x.txt", "dropped"),
        file("y.txt", "kept"),
    ];
    let fp = processor(vec![], false, vec![], false);
    let mut fmt = DefaultFormatter::new();
    let (text, _) = fp
        .process_paths(&vec![dir_root("root", entries)], &mut fmt)
        .unwrap();
    assert!(text.contains("y.txt"));
    assert!(!text.contains("x.txt"));
}

#[test]
fn test_extra_rules_apply_to_the_root() {
    let root = RootPath::Dir {
        path: "root".to_string(),
        dir: FsDir {
            entries: vec![file("x.log", "dropped"), file("y.txt", "kept")],
            read_error: None,
            extra_rules: "*.log
".to_string(),
        },
    };
    let fp = processor(vec![], false, vec![], false);
    let mut fmt = DefaultFormatter::new();
    let (text, _) = fp.process_paths(&vec![root], &mut fmt).unwrap();
    assert!(text.contains("y.txt"));
    assert!(!text.contains("x.log"));
}

#[test]
fn test_hidden_file_root_absent_from_tree() {
    // a hidden file root is excluded from the listing and from the tree
    let fp = FileProcessor::new(
        vec![],
        false,
        false,
        true,
        vec![],
        false,
        Some(TocMode::FilesAndDirs),
    )
    .unwrap();
    let roots = vec![RootPath::File {
        path: ".hidden.txt".to_string(),
        content: FileContent::Text("secret".to_string()),
    }];
    let mut fmt = DefaultFormatter::new();
    let (text, _) = fp.process_paths(&roots, &mut fmt).unwrap();
    assert_eq!(text, "");
    let generator = files_to_prompt::TreeGenerator::new(
        vec![],
        false,
        true,
        files_to_prompt::ignore::CustomIgnore::new(vec![], false).unwrap(),
    );
    let trees = generator.generate_tree(&roots).unwrap();
    assert!(trees.is_empty());
}
